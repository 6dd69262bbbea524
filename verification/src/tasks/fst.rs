//! Substitution FST: character-level map applied left to right.
//!
//! Each rule is a random 1:1 char map (a tiny finite-state transducer).
//! Track split uses DISJOINT alphabets: A maps within {a,b,c}, B maps within
//! {x,y,z}: Track B tests the same procedure on never-seen symbols.
//! Regime split: demo strings 2..8 chars, query strings 8..20.

use vstd::prelude::*;
use vstd::utf8::*;

use super::demo;
use super::rng;
use super::rng::HarnessRng;
use super::{flip_symbol, BoxedRule, Demo, DemoPolicy, Query, Rule, Task, Track};
use super::{DemoText, PolicyModel, QueryText, RuleModel, TaskModel};

verus! {

/// The first position of `x` in `xs`; the length of `xs` if there is none.
pub open spec fn position(xs: Seq<u8>, x: u8) -> int
    decreases xs.len(),
{
    if xs.len() == 0 || xs[0] == x {
        0
    } else {
        1 + position(xs.drop_first(), x)
    }
}

/// A position is where the symbol stands, and it stands nowhere before.
pub proof fn lemma_position(xs: Seq<u8>, x: u8)
    ensures
        0 <= position(xs, x) <= xs.len(),
        position(xs, x) < xs.len() ==> xs[position(xs, x)] == x,
        forall|i: int| 0 <= i < position(xs, x) && i < xs.len() ==> xs[i] != x,
    decreases xs.len(),
{
    if xs.len() > 0 && xs[0] != x {
        lemma_position(xs.drop_first(), x);
        assert forall|i: int| 0 <= i < position(xs, x) && i < xs.len() implies xs[i] != x by {
            if i > 0 {
                assert(xs[i] == xs.drop_first()[i - 1]);
            }
        }
    }
}

/// The character that the map writes for the byte `b`; `?` outside its source.
pub open spec fn mapped(source: Seq<u8>, map: Seq<u8>, b: u8) -> char {
    if position(source, b) < source.len() {
        map[position(source, b)] as char
    } else {
        '?'
    }
}

/// `input` with every byte replaced by what the map writes for it.
pub open spec fn substituted(source: Seq<u8>, map: Seq<u8>, input: Seq<char>) -> Seq<char> {
    Seq::new(encode_utf8(input).len(), |i: int| mapped(source, map, encode_utf8(input)[i]))
}

/// Whether the map says what to write for the byte `b`.
pub open spec fn covers(source: Seq<u8>, map: Seq<u8>, b: u8) -> bool {
    position(source, b) < source.len() ==> position(source, b) < map.len()
}

/// Whether the map says what to write for all of `input`.
pub open spec fn covers_text(source: Seq<u8>, map: Seq<u8>, input: Seq<char>) -> bool {
    forall|i: int|
        0 <= i < encode_utf8(input).len() ==> covers(source, map, #[trigger] encode_utf8(input)[i])
}

/// What the rule that maps `source` to `map` is.
pub open spec fn subst_model(source: Seq<u8>, map: Seq<u8>) -> RuleModel {
    RuleModel {
        ready: source.len() > 0 && forall|b: u8| #[trigger] covers(source, map, b),
        demo: |s: u64|
            {
                let input = rng::token_text(s, source, 2, 8);
                (
                    DemoText { input, output: substituted(source, map, input) },
                    rng::token_after(s, 2, 8),
                )
            },
        query: |s: u64|
            {
                let input = rng::token_text(s, source, 8, 20);
                (
                    QueryText { input, target: substituted(source, map, input) },
                    rng::token_after(s, 8, 20),
                )
            },
        decides: |input: Seq<char>, output: Seq<char>| covers_text(source, map, input),
        accepts: |input: Seq<char>, output: Seq<char>|
            crate::text::trimmed(output) == substituted(source, map, input),
        corrupted: |s: u64, output: Seq<char>| super::flipped(s, output),
        policy: PolicyModel::ExcludeAnswer,
        header: None,
    }
}

/// The map sampled over `alphabet` from state `s`: a shuffle, with the first
/// two symbols exchanged where it came out as the identity.
pub open spec fn sampled_map(alphabet: Seq<u8>, s: u64) -> Seq<u8> {
    let targets = rng::shuffled(alphabet, s);
    if targets == alphabet {
        rng::swapped(targets, 0, 1)
    } else {
        targets
    }
}

/// Random permutation of the track's alphabet as the substitution map.
fn sample_subst(rng: &mut HarnessRng, track: Track) -> (r: SubstRule)
    ensures
        r.source@ == super::track_letters(track),
        r.map@ == sampled_map(super::track_letters(track), old(rng)@),
        final(rng)@ == rng::advance(old(rng)@, 2),
        r.map@.len() == 3,
{
    let source: Vec<u8> = super::letters(track);
    let mut map: Vec<u8> = super::letters(track);
    proof {
        rng::lemma_shuffled_multiset(map@, rng@, 2);
    }
    rng.shuffle(&mut map);
    // Reject the identity map: it teaches copying, not transduction.
    if crate::text::same_bytes(&map, &source) {
        let first: u8 = map[0];
        let second: u8 = map[1];
        map.set(0, second);
        map.set(1, first);
    }
    SubstRule { source, map }
}

pub struct SubstFstTask;

impl Task for SubstFstTask {
    open spec fn model(&self) -> TaskModel {
        TaskModel {
            name: "subst-fst"@,
            stage: 0,
            policy: PolicyModel::ExcludeAnswer,
            rule: |s: u64, track: Track|
                (
                    subst_model(
                        super::track_letters(track),
                        sampled_map(super::track_letters(track), s),
                    ),
                    rng::advance(s, 2),
                ),
        }
    }

    fn name(&self) -> (r: &'static str) {
        "subst-fst"
    }

    fn stage(&self) -> (r: u8) {
        0
    }

    fn demo_policy(&self) -> (r: DemoPolicy) {
        DemoPolicy::ExcludeAnswer
    }

    fn sample_rule(&self, rng: &mut HarnessRng, track: Track) -> (r: BoxedRule) {
        let rule: SubstRule = sample_subst(rng, track);
        BoxedRule { rule: Box::new(rule) }
    }
}

pub struct SubstRule {
    pub source: Vec<u8>,
    pub map: Vec<u8>,
}

impl SubstRule {
    /// What the map writes for the byte `b`.
    fn map_byte(&self, b: u8) -> (r: char)
        requires
            covers(self.source@, self.map@, b),
        ensures
            r == mapped(self.source@, self.map@, b),
    {
        let mut i: usize = 0;
        assert(self.source@.skip(0) =~= self.source@);
        while i < self.source.len()
            invariant
                i <= self.source@.len(),
                covers(self.source@, self.map@, b),
                position(self.source@, b) == i + position(self.source@.skip(i as int), b),
            decreases self.source@.len() - i,
        {
            assert(self.source@.skip(i as int).drop_first() =~= self.source@.skip(i + 1));
            if self.source[i] == b {
                return self.map[i] as char;
            }
            i = i + 1;
        }
        '?'
    }

    /// What the map makes of `input`.
    pub fn apply(&self, input: &str) -> (r: String)
        requires
            covers_text(self.source@, self.map@, input@),
        ensures
            r@ == substituted(self.source@, self.map@, input@),
    {
        let bytes: Vec<u8> = crate::text::bytes_of(input);
        let mut out: String = String::new();
        let mut i: usize = 0;
        while i < bytes.len()
            invariant
                i <= bytes@.len(),
                bytes@ == encode_utf8(input@),
                covers_text(self.source@, self.map@, input@),
                out@ =~= substituted(self.source@, self.map@, input@).take(i as int),
            decreases bytes@.len() - i,
        {
            out.push(self.map_byte(bytes[i]));
            i = i + 1;
        }
        out
    }
}

impl Rule for SubstRule {
    open spec fn model(&self) -> RuleModel {
        subst_model(self.source@, self.map@)
    }

    fn render_demo(&self, rng: &mut HarnessRng) -> (d: Demo) {
        let input: String = rng.token_string(&self.source, 2, 8);
        let output: String = self.apply(input.as_str());
        Demo { input, output }
    }

    fn render_query(&self, rng: &mut HarnessRng) -> (q: Query) {
        let input: String = rng.token_string(&self.source, 8, 20);
        let target: String = self.apply(input.as_str());
        Query { input, target }
    }

    fn verify(&self, input: &str, output: &str) -> (r: bool) {
        let got: Vec<char> = crate::text::trim(output);
        let want: Vec<char> = crate::text::chars_of(self.apply(input).as_str());
        crate::text::same_chars(&got, &want)
    }

    fn corrupt(&self, rng: &mut HarnessRng, output: &str) -> (r: String) {
        flip_symbol(rng, output)
    }

    fn demo_policy(&self) -> (r: DemoPolicy) {
        DemoPolicy::ExcludeAnswer
    }

    fn oracle_header(&self) -> (r: Option<String>) {
        None
    }
}

/// The source of the constant map: `abc`.
pub open spec fn fixed_source() -> Seq<u8> {
    seq![97u8, 98u8, 99u8]
}

/// The constant map: `bca`. No symbol maps to itself (teaches transduction,
/// not copying).
pub open spec fn fixed_map() -> Seq<u8> {
    seq![98u8, 99u8, 97u8]
}

/// Fixed-map variant: ONE constant substitution for every instance
/// (`a->b b->c c->a`), no header, memorizable purely in weights. Both tracks
/// sample the identical rule. Scores above chance here mean the substrate owns
/// a transduction primitive; failure means no context experiment matters until
/// that exists. Bottom rung of the staircase.
pub struct SubstFstFixedTask;

impl Task for SubstFstFixedTask {
    open spec fn model(&self) -> TaskModel {
        TaskModel {
            name: "subst-fst-fixed"@,
            stage: 0,
            policy: PolicyModel::ExcludeAnswer,
            rule: |s: u64, track: Track| (subst_model(fixed_source(), fixed_map()), s),
        }
    }

    fn name(&self) -> (r: &'static str) {
        "subst-fst-fixed"
    }

    fn stage(&self) -> (r: u8) {
        0
    }

    fn demo_policy(&self) -> (r: DemoPolicy) {
        DemoPolicy::ExcludeAnswer
    }

    fn sample_rule(&self, _rng: &mut HarnessRng, _track: Track) -> (r: BoxedRule) {
        let source: Vec<u8> = super::letters(Track::A);
        let mut map: Vec<u8> = Vec::new();
        map.push(98);
        map.push(99);
        map.push(97);
        assert(source@ =~= fixed_source());
        assert(map@ =~= fixed_map());
        BoxedRule { rule: Box::new(SubstRule { source, map }) }
    }
}

/// Oracle variant: identical latent rules and targets, but the prompt states
/// the substitution explicitly (`MAP a->c b->a c->b`). Demos, regimes,
/// scoring, and the anti-copy policy are unchanged, so oracle-vs-normal
/// accuracy deltas isolate rule *execution* from rule *induction*.
pub struct SubstFstOracleTask;

impl Task for SubstFstOracleTask {
    open spec fn model(&self) -> TaskModel {
        TaskModel {
            name: "subst-fst-oracle"@,
            stage: 0,
            policy: PolicyModel::ExcludeAnswer,
            rule: |s: u64, track: Track|
                (
                    oracle_model(
                        super::track_letters(track),
                        sampled_map(super::track_letters(track), s),
                    ),
                    rng::advance(s, 2),
                ),
        }
    }

    fn name(&self) -> (r: &'static str) {
        "subst-fst-oracle"
    }

    fn stage(&self) -> (r: u8) {
        0
    }

    fn demo_policy(&self) -> (r: DemoPolicy) {
        DemoPolicy::ExcludeAnswer
    }

    fn sample_rule(&self, rng: &mut HarnessRng, track: Track) -> (r: BoxedRule) {
        // Same distribution as `SubstFstTask` (pool seeds differ by task
        // name, so instances differ; only the distribution matches).
        let rule: SubstRule = sample_subst(rng, track);
        BoxedRule { rule: Box::new(OracleSubstRule(rule)) }
    }
}

/// The first `n` pairs of the map in words: `a->c b->a`.
pub open spec fn stated_pairs(source: Seq<u8>, map: Seq<u8>, n: nat) -> Seq<char>
    decreases n,
{
    if n == 0 {
        Seq::empty()
    } else {
        let i = (n - 1) as int;
        let before = stated_pairs(source, map, i as nat);
        let gap: Seq<char> = if i == 0 {
            Seq::empty()
        } else {
            seq![' ']
        };
        before + gap + seq![source[i] as char, '-', '>', map[i] as char]
    }
}

/// How many pairs the map has.
pub open spec fn pair_count(source: Seq<u8>, map: Seq<u8>) -> nat {
    if source.len() <= map.len() {
        source.len()
    } else {
        map.len()
    }
}

/// The statement of the map: `MAP a->c b->a c->b`.
pub open spec fn stated_map(source: Seq<u8>, map: Seq<u8>) -> Seq<char> {
    seq!['M', 'A', 'P', ' '] + stated_pairs(source, map, pair_count(source, map))
}

/// What the rule that maps `source` to `map` and states so is.
pub open spec fn oracle_model(source: Seq<u8>, map: Seq<u8>) -> RuleModel {
    RuleModel { header: Some(stated_map(source, map)), ..subst_model(source, map) }
}

/// `SubstRule` wrapper stating the map explicitly. All behavior delegates.
pub struct OracleSubstRule(pub SubstRule);

impl Rule for OracleSubstRule {
    open spec fn model(&self) -> RuleModel {
        oracle_model(self.0.source@, self.0.map@)
    }

    fn render_demo(&self, rng: &mut HarnessRng) -> (d: Demo) {
        self.0.render_demo(rng)
    }

    fn render_query(&self, rng: &mut HarnessRng) -> (q: Query) {
        self.0.render_query(rng)
    }

    fn verify(&self, input: &str, output: &str) -> (r: bool) {
        self.0.verify(input, output)
    }

    fn corrupt(&self, rng: &mut HarnessRng, output: &str) -> (r: String) {
        self.0.corrupt(rng, output)
    }

    fn demo_policy(&self) -> (r: DemoPolicy) {
        self.0.demo_policy()
    }

    fn oracle_header(&self) -> (r: Option<String>) {
        let mut out: String = "MAP ".to_string();
        proof {
            reveal_strlit("MAP ");
            reveal_strlit("->");
        }
        let ghost start = seq!['M', 'A', 'P', ' '];
        assert(out@ =~= start);
        let source: &Vec<u8> = &self.0.source;
        let map: &Vec<u8> = &self.0.map;
        let mut i: usize = 0;
        while i < source.len() && i < map.len()
            invariant
                i <= pair_count(source@, map@),
                out@ =~= start + stated_pairs(source@, map@, i as nat),
            decreases source@.len() - i,
        {
            let ghost before = out@;
            if i > 0 {
                out.push(' ');
            }
            out.push(source[i] as char);
            out.push('-');
            out.push('>');
            out.push(map[i] as char);
            i = i + 1;
        }
        Some(out)
    }
}

/// A sampled map is a permutation of its alphabet, never the identity.
pub proof fn lemma_sampled_map(track: Track, s: u64)
    ensures
        ({
            let alphabet = super::track_letters(track);
            let map = sampled_map(alphabet, s);
            &&& map.to_multiset() == alphabet.to_multiset()
            &&& map.len() == alphabet.len()
            &&& map != alphabet
            &&& map.no_duplicates()
        }),
{
    broadcast use vstd::seq_lib::group_to_multiset_ensures;

    let alphabet = super::track_letters(track);
    let targets = rng::shuffled(alphabet, s);
    rng::lemma_shuffled_multiset(alphabet, s, 2);
    if targets == alphabet {
        rng::lemma_swapped_multiset(targets, 0, 1);
        assert(rng::swapped(targets, 0, 1)[0] == alphabet[1]);
        assert(alphabet[0] != alphabet[1]);
    }
    assert(alphabet.no_duplicates());
    alphabet.lemma_multiset_has_no_duplicates();
    sampled_map(alphabet, s).lemma_multiset_has_no_duplicates_conv();
}

/// A drawn ASCII string has one byte per character, the one that was drawn.
proof fn lemma_token_bytes(s: u64, alphabet: Seq<u8>, lo: nat, hi: nat)
    requires
        alphabet.len() > 0,
        lo < hi,
        forall|i: int| 0 <= i < alphabet.len() ==> #[trigger] alphabet[i] < 128,
    ensures
        ({
            let text = rng::token_text(s, alphabet, lo, hi);
            &&& encode_utf8(text).len() == text.len()
            &&& forall|i: int|
                0 <= i < text.len() ==> text[i] == #[trigger] encode_utf8(text)[i] as char
                    && alphabet.contains(encode_utf8(text)[i])
        }),
{
    let text = rng::token_text(s, alphabet, lo, hi);
    super::lemma_token_ascii(s, alphabet, lo, hi);
    is_ascii_chars_encode_utf8(text);
    assert forall|i: int| 0 <= i < text.len() implies text[i] == #[trigger] encode_utf8(
        text,
    )[i] as char && alphabet.contains(encode_utf8(text)[i]) by {
        super::lemma_token_symbols(s, alphabet, lo, hi, i);
        assert(text[i] as u8 == encode_utf8(text)[i]);
    }
}

/// A rule sampled by a track answers a query with a string of its length over
/// its alphabet, and accepts that answer and no other (but for white space
/// around it).
pub proof fn lemma_subst_judges_own_queries(track: Track, s: u64, t: u64, output: Seq<char>)
    ensures
        ({
            let alphabet = super::track_letters(track);
            let m = subst_model(alphabet, sampled_map(alphabet, s));
            let q = (m.query)(t).0;
            &&& m.ready
            &&& (m.decides)(q.input, output)
            &&& q.target.len() == q.input.len()
            &&& 8 <= q.input.len() < 20
            &&& forall|i: int|
                0 <= i < q.target.len() ==> alphabet.contains(#[trigger] q.target[i] as u8)
            &&& (m.accepts)(q.input, q.target)
            &&& (m.accepts)(q.input, output) ==> crate::text::trimmed(output) == q.target
        }),
{
    broadcast use vstd::seq_lib::group_to_multiset_ensures;

    let alphabet = super::track_letters(track);
    let map = sampled_map(alphabet, s);
    let q = (subst_model(alphabet, map).query)(t).0;
    lemma_sampled_map(track, s);
    lemma_token_bytes(t, alphabet, 8, 20);
    assert forall|i: int| 0 <= i < q.target.len() implies alphabet.contains(
        #[trigger] q.target[i] as u8,
    ) && !crate::text::is_white(q.target[i]) by {
        let b = encode_utf8(q.input)[i];
        assert(alphabet.contains(b));
        lemma_position(alphabet, b);
        let j = position(alphabet, b);
        assert(map.to_multiset().count(map[j]) > 0);
        assert(alphabet.contains(map[j]));
        assert(q.target[i] == map[j] as char);
    }
    crate::text::lemma_trimmed_id(q.target);
}

/// The fixed map is the same for both tracks and for every draw, states no
/// header, and changes every character of a query.
pub proof fn lemma_fixed_map(s: u64, t: u64, track: Track)
    ensures
        ({
            let m = (SubstFstFixedTask.model().rule)(s, track).0;
            let q = (m.query)(t).0;
            &&& m == (SubstFstFixedTask.model().rule)(t, Track::A).0
            &&& m.header is None
            &&& q.target.len() == q.input.len()
            &&& q.target != q.input
            &&& forall|i: int| 0 <= i < q.input.len() ==> #[trigger] q.target[i] != q.input[i]
            &&& (m.accepts)(q.input, q.target)
        }),
{
    let source = fixed_source();
    let map = fixed_map();
    let q = (subst_model(source, map).query)(t).0;
    lemma_token_bytes(t, source, 8, 20);
    assert forall|i: int| 0 <= i < q.input.len() implies #[trigger] q.target[i] != q.input[i]
        && !crate::text::is_white(q.target[i]) by {
        let b = encode_utf8(q.input)[i];
        lemma_position(source, b);
        assert(source.contains(b));
        let j = position(source, b);
        assert(source[j] == b);
        assert(map[j] != source[j]);
        assert(q.target[i] == map[j] as char);
        assert(map[j] as char as u8 == map[j]);
        assert(source[j] as char as u8 == source[j]);
    }
    crate::text::lemma_trimmed_id(q.target);
    assert(q.target[0] != q.input[0]);
}

/// Stating the map changes nothing but the header: demos, queries, answers and
/// policy are those of the silent rule.
pub proof fn lemma_oracle_only_adds_header(source: Seq<u8>, map: Seq<u8>)
    ensures
        oracle_model(source, map) == (RuleModel {
            header: Some(stated_map(source, map)),
            ..subst_model(source, map)
        }),
        stated_map(source, map).take(4) == seq!['M', 'A', 'P', ' '],
{
    assert(stated_map(source, map).take(4) =~= seq!['M', 'A', 'P', ' ']);
}

/// Demo strings are 2 to 7 characters long and query strings 8 to 19, so their
/// lengths never meet.
pub proof fn lemma_subst_regimes(source: Seq<u8>, map: Seq<u8>, s: u64)
    ensures
        2 <= (subst_model(source, map).demo)(s).0.input.len() < 8,
        8 <= (subst_model(source, map).query)(s).0.input.len() < 20,
{
}

/// An answer has as many bytes as the drawn ASCII string that it answers.
proof fn lemma_answer_bytes(source: Seq<u8>, map: Seq<u8>, s: u64, lo: nat, hi: nat)
    requires
        source.len() > 0,
        lo < hi,
        source.len() == map.len(),
        forall|i: int| 0 <= i < source.len() ==> #[trigger] source[i] < 128,
        forall|i: int| 0 <= i < map.len() ==> #[trigger] map[i] < 128,
    ensures
        lo <= encode_utf8(
            substituted(source, map, rng::token_text(s, source, lo, hi)),
        ).len() < hi,
{
    let input = rng::token_text(s, source, lo, hi);
    let answer = substituted(source, map, input);
    lemma_token_bytes(s, source, lo, hi);
    assert forall|i: int| 0 <= i < answer.len() implies '\0' <= #[trigger] answer[i]
        <= '\u{7f}' by {
        let b = encode_utf8(input)[i];
        lemma_position(source, b);
        let j = position(source, b);
        if j < source.len() {
            assert(map[j] < 128);
        }
    }
    is_ascii_chars_encode_utf8(answer);
}

/// No demo of a rule over ASCII symbols ever shows the answer: whatever the
/// protocol and the generator state.
proof fn lemma_ascii_map_hides_answer(
    p: demo::ProtocolModel,
    task: Seq<char>,
    track: Track,
    source: Seq<u8>,
    map: Seq<u8>,
    header: Option<Seq<char>>,
    s: u64,
)
    requires
        source.len() > 0,
        source.len() == map.len(),
        forall|i: int| 0 <= i < source.len() ==> #[trigger] source[i] < 128,
        forall|i: int| 0 <= i < map.len() ==> #[trigger] map[i] < 128,
    ensures
        ({
            let m = RuleModel { header, ..subst_model(source, map) };
            let x = demo::built(p, task, 0, track, m, s).0;
            !demo::shown(x.demos, x.expected)
        }),
{
    let m = RuleModel { header, ..subst_model(source, map) };
    let short = |o: Seq<char>| encode_utf8(o).len() < 8;
    assert forall|t: u64| short((#[trigger] (m.demo)(t)).0.output) by {
        lemma_answer_bytes(source, map, t, 2, 8);
    }
    assert forall|t: u64| !short((#[trigger] (m.query)(t)).0.target) by {
        lemma_answer_bytes(source, map, t, 8, 20);
    }
    assert forall|t: u64, o: Seq<char>| short(o) implies short(
        (#[trigger] (m.corrupted)(t, o)).0,
    ) by {
        super::lemma_flip_is_wrong(t, o);
    }
    demo::lemma_kinds_apart(p, task, 0, track, m, s, short);
}

/// No demo of an instance of the substitution task, nor of its variant that
/// states the map, ever shows the answer: whatever the protocol and the
/// generator states.
pub proof fn lemma_subst_hides_answer(p: demo::ProtocolModel, track: Track, s: u64, t: u64)
    ensures
        ({
            let m = (SubstFstTask.model().rule)(s, track).0;
            let x = demo::built(p, SubstFstTask.model().name, 0, track, m, t).0;
            !demo::shown(x.demos, x.expected)
        }),
        ({
            let m = (SubstFstOracleTask.model().rule)(s, track).0;
            let x = demo::built(p, SubstFstOracleTask.model().name, 0, track, m, t).0;
            !demo::shown(x.demos, x.expected)
        }),
{
    broadcast use vstd::seq_lib::group_to_multiset_ensures;

    let alphabet = super::track_letters(track);
    let map = sampled_map(alphabet, s);
    lemma_sampled_map(track, s);
    assert forall|i: int| 0 <= i < map.len() implies #[trigger] map[i] < 128 by {
        assert(map.to_multiset().count(map[i]) > 0);
        assert(alphabet.contains(map[i]));
    }
    lemma_oracle_only_adds_header(alphabet, map);
    let name = SubstFstTask.model().name;
    lemma_ascii_map_hides_answer(p, name, track, alphabet, map, None, t);
    let name = SubstFstOracleTask.model().name;
    lemma_ascii_map_hides_answer(
        p,
        name,
        track,
        alphabet,
        map,
        Some(stated_map(alphabet, map)),
        t,
    );
}

/// No demo of an instance of the fixed-map task ever shows the answer:
/// whatever the protocol and the generator states.
pub proof fn lemma_fixed_hides_answer(p: demo::ProtocolModel, track: Track, s: u64, t: u64)
    ensures
        ({
            let m = (SubstFstFixedTask.model().rule)(s, track).0;
            let x = demo::built(p, SubstFstFixedTask.model().name, 0, track, m, t).0;
            !demo::shown(x.demos, x.expected)
        }),
{
    let name = SubstFstFixedTask.model().name;
    lemma_ascii_map_hides_answer(p, name, track, fixed_source(), fixed_map(), None, t);
}

/// Everything that a rule over printable symbols says is printable.
proof fn lemma_map_printable(source: Seq<u8>, map: Seq<u8>)
    requires
        source.len() > 0,
        source.len() == map.len(),
        super::printable_bytes(source),
        super::printable_bytes(map),
    ensures
        demo::speaks_plainly(subst_model(source, map)),
{
    let m = subst_model(source, map);
    assert forall|t: u64|
        super::printable((#[trigger] (m.demo)(t)).0.input) && super::printable(
            (m.demo)(t).0.output,
        ) by {
        super::lemma_token_printable(t, source, 2, 8);
        lemma_substituted_printable(source, map, (m.demo)(t).0.input);
    }
    assert forall|t: u64|
        super::printable((#[trigger] (m.query)(t)).0.input) && super::printable(
            (m.query)(t).0.target,
        ) by {
        super::lemma_token_printable(t, source, 8, 20);
        lemma_substituted_printable(source, map, (m.query)(t).0.input);
    }
    assert forall|t: u64, o: Seq<char>| super::printable(o) implies super::printable(
        (#[trigger] (m.corrupted)(t, o)).0,
    ) by {
        super::lemma_flip_printable(t, o);
    }
}

proof fn lemma_substituted_printable(source: Seq<u8>, map: Seq<u8>, input: Seq<char>)
    requires
        source.len() == map.len(),
        super::printable_bytes(map),
    ensures
        super::printable(substituted(source, map, input)),
{
    let answer = substituted(source, map, input);
    assert forall|i: int| 0 <= i < answer.len() implies ' ' <= #[trigger] answer[i] <= '~' by {
        let b = encode_utf8(input)[i];
        lemma_position(source, b);
        if position(source, b) < source.len() {
            assert(32 <= map[position(source, b)] < 127);
        }
    }
}

proof fn lemma_pairs_printable(source: Seq<u8>, map: Seq<u8>, n: nat)
    requires
        n <= source.len(),
        source.len() == map.len(),
        super::printable_bytes(source),
        super::printable_bytes(map),
    ensures
        super::printable(stated_pairs(source, map, n)),
    decreases n,
{
    if n > 0 {
        let i = (n - 1) as int;
        let before = stated_pairs(source, map, i as nat);
        lemma_pairs_printable(source, map, i as nat);
        assert(32 <= source[i] < 127 && 32 <= map[i] < 127);
        let all = stated_pairs(source, map, n);
        assert forall|j: int| 0 <= j < all.len() implies ' ' <= #[trigger] all[j] <= '~' by {
            if j < before.len() {
                assert(all[j] == before[j]);
            }
        }
    }
}

/// Everything that a rule sampled by a track says is printable, stated map
/// included.
pub proof fn lemma_subst_printable(track: Track, s: u64)
    ensures
        demo::speaks_plainly((SubstFstTask.model().rule)(s, track).0),
        demo::speaks_plainly((SubstFstOracleTask.model().rule)(s, track).0),
        demo::speaks_plainly((SubstFstFixedTask.model().rule)(s, track).0),
{
    broadcast use vstd::seq_lib::group_to_multiset_ensures;

    let alphabet = super::track_letters(track);
    let map = sampled_map(alphabet, s);
    lemma_sampled_map(track, s);
    assert forall|i: int| 0 <= i < map.len() implies 32 <= #[trigger] map[i] < 127 by {
        assert(map.to_multiset().count(map[i]) > 0);
        assert(alphabet.contains(map[i]));
    }
    lemma_map_printable(alphabet, map);
    lemma_map_printable(fixed_source(), fixed_map());
    lemma_pairs_printable(alphabet, map, 3);
    let m = oracle_model(alphabet, map);
    let silent = subst_model(alphabet, map);
    let header = stated_map(alphabet, map);
    assert forall|j: int| 0 <= j < header.len() implies ' ' <= #[trigger] header[j] <= '~' by {
        if j >= 4 {
            assert(header[j] == stated_pairs(alphabet, map, 3)[j - 4]);
        }
    }
    assert(m.demo == silent.demo && m.query == silent.query && m.corrupted == silent.corrupted);
}

/// Every demo that a rule of the task renders is right by that rule.
pub proof fn lemma_subst_demos_right(track: Track, s: u64)
    ensures
        super::demos_right((SubstFstTask.model().rule)(s, track).0),
{
    broadcast use vstd::seq_lib::group_to_multiset_ensures;

    let alphabet = super::track_letters(track);
    let map = sampled_map(alphabet, s);
    let m = subst_model(alphabet, map);
    lemma_sampled_map(track, s);
    assert forall|t: u64| super::right_by(m, (#[trigger] (m.demo)(t)).0) by {
        let d = (m.demo)(t).0;
        lemma_token_bytes(t, alphabet, 2, 8);
        assert forall|i: int| 0 <= i < d.output.len() implies !crate::text::is_white(
            #[trigger] d.output[i],
        ) by {
            let b = encode_utf8(d.input)[i];
            assert(alphabet.contains(b));
            lemma_position(alphabet, b);
            let j = position(alphabet, b);
            assert(map.to_multiset().count(map[j]) > 0);
            assert(alphabet.contains(map[j]));
            assert(d.output[i] == map[j] as char);
        }
        crate::text::lemma_trimmed_id(d.output);
    }
}

/// The map that three symbols are given: which one is decided by two draws, and
/// every outcome is spelled out. The two that would leave all symbols or just
/// exchange the first two come to the same.
pub proof fn lemma_sampled_map_draws(track: Track, s: u64)
    ensures
        ({
            let l = super::track_letters(track);
            let i = rng::draw(s, 0) % 3;
            let j = rng::draw(s, 1) % 2;
            sampled_map(l, s) == if i == 0 && j == 0 {
                seq![l[1], l[2], l[0]]
            } else if i == 0 {
                seq![l[2], l[1], l[0]]
            } else if i == 1 && j == 0 {
                seq![l[2], l[0], l[1]]
            } else if i == 1 {
                seq![l[0], l[2], l[1]]
            } else {
                seq![l[1], l[0], l[2]]
            }
        }),
{
    let l = super::track_letters(track);
    let i = rng::draw(s, 0) % 3;
    let j = rng::draw(s, 1) % 2;
    let s1 = rng::advance(s, 1);
    rng::lemma_next_draw(s, 1);
    reveal_with_fuel(rng::shuffled_from, 3);
    let once = rng::swapped(l, 2, i as int);
    let twice = rng::swapped(once, 1, j as int);
    assert(rng::shuffled(l, s) == twice);
    let map = sampled_map(l, s);
    if i == 0 && j == 0 {
        assert(twice =~= seq![l[1], l[2], l[0]]);
        assert(twice[0] != l[0]);
    } else if i == 0 {
        assert(twice =~= seq![l[2], l[1], l[0]]);
        assert(twice[0] != l[0]);
    } else if i == 1 && j == 0 {
        assert(twice =~= seq![l[2], l[0], l[1]]);
        assert(twice[0] != l[0]);
    } else if i == 1 {
        assert(twice =~= seq![l[0], l[2], l[1]]);
        assert(twice[1] != l[1]);
    } else if j == 0 {
        assert(twice =~= seq![l[1], l[0], l[2]]);
        assert(twice[0] != l[0]);
    } else {
        assert(twice =~= l);
        assert(map =~= seq![l[1], l[0], l[2]]);
    }
}

/// What a map does to a byte: the symbol that stands in the map where the byte
/// first stands in the source; a `?` where the source lacks the byte. Every
/// byte of the input gives one character, in its place.
pub proof fn lemma_substituted_at(
    source: Seq<u8>,
    map: Seq<u8>,
    input: Seq<char>,
    i: int,
    j: int,
)
    requires
        0 <= i < encode_utf8(input).len(),
        0 <= j < source.len(),
        forall|k: int| 0 <= k < j ==> #[trigger] source[k] != source[j],
    ensures
        substituted(source, map, input).len() == encode_utf8(input).len(),
        source[j] == encode_utf8(input)[i] ==> substituted(source, map, input)[i] == map[j] as char,
        !source.contains(encode_utf8(input)[i]) ==> substituted(source, map, input)[i] == '?',
{
    let b = encode_utf8(input)[i];
    lemma_position(source, b);
    let p = position(source, b);
    if source[j] == b {
        assert(p <= j);
        if p < j {
            assert(source[p] != source[j]);
        }
    } else if p < source.len() {
        assert(source[p] == b);
    }
}

/// What the substitution task asks on each track: strings over the track's
/// symbols, as drawn, and what the sampled map makes of each symbol, in demos
/// and queries alike, with the map stated or not.
pub proof fn lemma_subst_asks(s: u64, track: Track, t: u64, i: int, input: Seq<char>, output: Seq<char>)
    ensures
        ({
            let l = super::track_letters(track);
            let map = sampled_map(l, s);
            let (m, after) = (SubstFstTask.model().rule)(s, track);
            let (o, last) = (SubstFstOracleTask.model().rule)(s, track);
            let d = (m.demo)(t).0;
            let q = (m.query)(t).0;
            let pick = rng::draw(t, (i + 1) as nat) % 3;
            &&& after == rng::advance(s, 2)
            &&& last == after
            &&& m.ready
            &&& (m.decides)(input, output)
            &&& m.policy == PolicyModel::ExcludeAnswer
            &&& m.header is None
            &&& o == (RuleModel { header: o.header, ..m })
            &&& o.header == Some(
                seq!['M', 'A', 'P', ' ', l[0] as char, '-', '>', map[0] as char, ' ', l[1] as char, '-',
                    '>', map[1] as char, ' ', l[2] as char, '-', '>', map[2] as char],
            )
            &&& d.input.len() == 2 + rng::draw(t, 0) % 6
            &&& d.output.len() == d.input.len()
            &&& 0 <= i < d.input.len() ==> d.input[i] == l[pick as int] as char && d.output[i]
                == map[pick as int] as char
            &&& (m.demo)(t).1 == rng::advance(t, d.input.len() + 1)
            &&& q.input.len() == 8 + rng::draw(t, 0) % 12
            &&& q.target.len() == q.input.len()
            &&& 0 <= i < q.input.len() ==> q.input[i] == l[pick as int] as char && q.target[i]
                == map[pick as int] as char
            &&& (m.query)(t).1 == rng::advance(t, q.input.len() + 1)
            &&& (m.accepts)(input, output) <==> crate::text::trimmed(output) == substituted(
                l,
                map,
                input,
            )
            &&& (m.corrupted)(t, output) == super::flipped(t, output)
        }),
{
    let l = super::track_letters(track);
    let map = sampled_map(l, s);
    let m = subst_model(l, map);
    lemma_sampled_map(track, s);
    lemma_asked(l, map, t, 2, 8, i);
    lemma_asked(l, map, t, 8, 20, i);
    assert(forall|b: u8| #[trigger] covers(l, map, b));
    reveal_with_fuel(stated_pairs, 4);
    let o = oracle_model(l, map);
    assert(stated_map(l, map) =~= seq!['M', 'A', 'P', ' ', l[0] as char, '-', '>', map[0] as char,
        ' ', l[1] as char, '-', '>', map[1] as char, ' ', l[2] as char, '-', '>', map[2] as char]);
}

/// A drawn string over symbols that differ, and what the map makes of it.
proof fn lemma_asked(l: Seq<u8>, map: Seq<u8>, t: u64, lo: nat, hi: nat, i: int)
    requires
        lo < hi,
        l.len() == 3,
        map.len() == 3,
        l.no_duplicates(),
        forall|k: int| 0 <= k < l.len() ==> #[trigger] l[k] < 128,
    ensures
        ({
            let input = rng::token_text(t, l, lo, hi);
            let output = substituted(l, map, input);
            let pick = rng::draw(t, (i + 1) as nat) % 3;
            &&& input.len() == lo + (rng::draw(t, 0) as int) % (hi - lo)
            &&& output.len() == input.len()
            &&& 0 <= i < input.len() ==> input[i] == l[pick as int] as char && output[i]
                == map[pick as int] as char
            &&& rng::token_after(t, lo, hi) == rng::advance(t, input.len() + 1)
        }),
{
    let input = rng::token_text(t, l, lo, hi);
    rng::lemma_token_draws(t, l, lo, hi);
    lemma_token_bytes(t, l, lo, hi);
    if 0 <= i < input.len() {
        let j = (rng::draw(t, (i + 1) as nat) % 3) as int;
        assert(input[i] == l[j] as char);
        assert(encode_utf8(input)[i] as char == input[i]);
        assert(l[j] as char as u8 == l[j]);
        assert(encode_utf8(input)[i] as char as u8 == encode_utf8(input)[i]);
        lemma_substituted_at(l, map, input, i, j);
    }
}

/// The fixed map: `a` to `b`, `b` to `c` and `c` to `a`, whatever is drawn and on
/// either track; nothing is drawn to sample it.
pub proof fn lemma_fixed_asks(s: u64, track: Track, t: u64, i: int, input: Seq<char>, output: Seq<char>)
    ensures
        ({
            let (m, after) = (SubstFstFixedTask.model().rule)(s, track);
            let d = (m.demo)(t).0;
            let q = (m.query)(t).0;
            let pick = rng::draw(t, (i + 1) as nat) % 3;
            &&& after == s
            &&& m.ready
            &&& (m.decides)(input, output)
            &&& m.policy == PolicyModel::ExcludeAnswer
            &&& m.header is None
            &&& d.input.len() == 2 + rng::draw(t, 0) % 6
            &&& d.output.len() == d.input.len()
            &&& 0 <= i < d.input.len() ==> d.input[i] == "abc"@[pick as int] && d.output[i]
                == "bca"@[pick as int]
            &&& q.input.len() == 8 + rng::draw(t, 0) % 12
            &&& q.target.len() == q.input.len()
            &&& 0 <= i < q.input.len() ==> q.input[i] == "abc"@[pick as int] && q.target[i]
                == "bca"@[pick as int]
            &&& (m.accepts)(input, output) <==> crate::text::trimmed(output) == substituted(
                seq![97u8, 98u8, 99u8],
                seq![98u8, 99u8, 97u8],
                input,
            )
            &&& (m.corrupted)(t, output) == super::flipped(t, output)
        }),
{
    reveal_strlit("abc");
    reveal_strlit("bca");
    lemma_asked(fixed_source(), fixed_map(), t, 2, 8, i);
    lemma_asked(fixed_source(), fixed_map(), t, 8, 20, i);
    assert(forall|b: u8| #[trigger] covers(fixed_source(), fixed_map(), b));
}

/// One more pair adds a blank and itself to the statement of a map.
pub proof fn lemma_stated_map_grows(source: Seq<u8>, map: Seq<u8>, a: u8, b: u8)
    requires
        source.len() == map.len(),
    ensures
        source.len() > 0 ==> stated_map(source.push(a), map.push(b)) == stated_map(source, map)
            + seq![' ', a as char, '-', '>', b as char],
        source.len() == 0 ==> stated_map(source.push(a), map.push(b)) == seq![
            'M',
            'A',
            'P',
            ' ',
            a as char,
            '-',
            '>',
            b as char,
        ],
{
    let n = source.len();
    lemma_pairs_front(source, map, a, b, n);
    assert(stated_pairs(source.push(a), map.push(b), n) == stated_pairs(source, map, n));
    if n > 0 {
        assert(stated_map(source.push(a), map.push(b)) =~= stated_map(source, map) + seq![
            ' ',
            a as char,
            '-',
            '>',
            b as char,
        ]);
    } else {
        assert(stated_pairs(source, map, 0) =~= Seq::<char>::empty());
        assert(stated_map(source.push(a), map.push(b)) =~= seq![
            'M',
            'A',
            'P',
            ' ',
            a as char,
            '-',
            '>',
            b as char,
        ]);
    }
}

proof fn lemma_pairs_front(source: Seq<u8>, map: Seq<u8>, a: u8, b: u8, n: nat)
    requires
        n <= source.len(),
        source.len() == map.len(),
    ensures
        stated_pairs(source.push(a), map.push(b), n) == stated_pairs(source, map, n),
    decreases n,
{
    if n > 0 {
        lemma_pairs_front(source, map, a, b, (n - 1) as nat);
    }
}

/// A map says what to write for a byte unless the byte first stands in the
/// source where the map has ended; and for a text, if it does for every byte.
pub proof fn lemma_covers(source: Seq<u8>, map: Seq<u8>, b: u8, input: Seq<char>)
    ensures
        source.len() <= map.len() ==> covers(source, map, b) && covers_text(source, map, input),
        !source.contains(b) ==> covers(source, map, b),
        forall|j: int|
            0 <= j < source.len() && #[trigger] source[j] == b && (forall|k: int|
                0 <= k < j ==> #[trigger] source[k] != b) ==> (covers(source, map, b) <==> j
                < map.len()),
        covers_text(source, map, input) <==> forall|i: int|
            0 <= i < encode_utf8(input).len() ==> covers(
                source,
                map,
                #[trigger] encode_utf8(input)[i],
            ),
{
    lemma_position(source, b);
    let p = position(source, b);
    if p < source.len() {
        assert(source.contains(source[p]));
    }
    assert forall|j: int|
        0 <= j < source.len() && #[trigger] source[j] == b && (forall|k: int|
            0 <= k < j ==> #[trigger] source[k] != b) implies (covers(source, map, b) <==> j
        < map.len()) by {
        assert(p == j) by {
            if p < j {
                assert(source[p] != b);
            }
        }
    }
}

/// A statement has as many pairs as both sides of the map do; what one side has
/// beyond the other is not stated.
pub proof fn lemma_stated_pairs_end(source: Seq<u8>, map: Seq<u8>, more: Seq<u8>)
    requires
        source.len() == map.len(),
    ensures
        stated_map(source + more, map) == stated_map(source, map),
        stated_map(source, map + more) == stated_map(source, map),
{
    lemma_pairs_of(source + more, map, source, map, source.len());
    lemma_pairs_of(source, map + more, source, map, source.len());
}

proof fn lemma_pairs_of(a: Seq<u8>, b: Seq<u8>, source: Seq<u8>, map: Seq<u8>, n: nat)
    requires
        n <= source.len() <= a.len(),
        n <= map.len() <= b.len(),
        forall|i: int| 0 <= i < source.len() ==> a[i] == #[trigger] source[i],
        forall|i: int| 0 <= i < map.len() ==> b[i] == #[trigger] map[i],
    ensures
        stated_pairs(a, b, n) == stated_pairs(source, map, n),
    decreases n,
{
    if n > 0 {
        lemma_pairs_of(a, b, source, map, (n - 1) as nat);
        assert(a[n - 1] == source[n - 1] && b[n - 1] == map[n - 1]);
    }
}

} // verus!
