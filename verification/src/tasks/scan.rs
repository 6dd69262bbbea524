//! Tiny SCAN: compositional command to action sequences.
//!
//! Primitives: jump->J, walk->W, turn left->L, turn right->R.
//! Modifiers: `twice` (x2), `thrice` (x3). Conjunction: `X and Y`.
//! Both tracks draw primitives and `and` pairings freely. Track A says things
//! once or `twice`; track B also says `thrice`, which A never does, and follows
//! every other single clause up with a bare primitive: compositional
//! generalization in the gSCAN spirit, at byte scale.
//! Regime split: demo commands use at most 2 clauses, queries up to 3.

use vstd::prelude::*;

use super::demo;
use super::rate::{Rate, CUTOFF_FIFTY, CUTOFF_FORTY};
use super::rng;
use super::rng::HarnessRng;
use super::{BoxedRule, Demo, DemoPolicy, Query, Rule, Task, Track};
use super::{DemoText, PolicyModel, QueryText, RuleModel, TaskModel};

verus! {

/// The words of the primitives, by number.
pub open spec fn word(prim: int) -> Seq<char> {
    if prim == 0 {
        "jump"@
    } else if prim == 1 {
        "walk"@
    } else if prim == 2 {
        "turn left"@
    } else {
        "turn right"@
    }
}

/// The action symbols of the primitives, by number.
pub open spec fn action(prim: int) -> char {
    if prim == 0 {
        'J'
    } else if prim == 1 {
        'W'
    } else if prim == 2 {
        'L'
    } else {
        'R'
    }
}

/// One clause: a primitive and how often to do it.
pub struct Clause {
    pub prim: int,
    pub reps: nat,
}

/// The clauses that can be said.
pub open spec fn sayable(c: Clause) -> bool {
    0 <= c.prim < 4 && 1 <= c.reps <= 3
}

/// The words for doing something `reps` times.
pub open spec fn modifier(reps: nat) -> Seq<char> {
    if reps == 2 {
        " twice"@
    } else if reps == 3 {
        " thrice"@
    } else {
        Seq::empty()
    }
}

/// A clause in words.
pub open spec fn clause_text(c: Clause) -> Seq<char> {
    word(c.prim) + modifier(c.reps)
}

/// What a clause asks for.
pub open spec fn clause_actions(c: Clause) -> Seq<char> {
    Seq::new(c.reps, |i: int| action(c.prim))
}

/// A command in words: its clauses joined by ` and `.
pub open spec fn command_text(cs: Seq<Clause>) -> Seq<char>
    decreases cs.len(),
{
    if cs.len() == 0 {
        Seq::empty()
    } else if cs.len() == 1 {
        clause_text(cs[0])
    } else {
        command_text(cs.drop_last()) + " and "@ + clause_text(cs.last())
    }
}

/// What a command asks for.
pub open spec fn command_actions(cs: Seq<Clause>) -> Seq<char>
    decreases cs.len(),
{
    if cs.len() == 0 {
        Seq::empty()
    } else {
        command_actions(cs.drop_last()) + clause_actions(cs.last())
    }
}

/// How often the draw `n` of the stream says to do something. Track A: once
/// or twice. Track B: also thrice.
pub open spec fn drawn_reps(s: u64, n: nat, track: Track) -> nat {
    match track {
        Track::A => if rng::draw(s, n) < CUTOFF_FORTY {
            2
        } else {
            1
        },
        Track::B => 1 + rng::draw_below(s, n, 3),
    }
}

/// The first `n` clauses that the stream spells after its first draw.
pub open spec fn drawn_clauses(s: u64, track: Track, n: nat) -> Seq<Clause> {
    Seq::new(
        n,
        |i: int|
            Clause {
                prim: rng::draw_below(s, (1 + 2 * i) as nat, 4) as int,
                reps: drawn_reps(s, (2 + 2 * i) as nat, track),
            },
    )
}

/// The command rendered from state `s` with at most `max` clauses, and the
/// state after it. Track B follows up every other single clause with a bare
/// primitive.
pub open spec fn rendered(s: u64, track: Track, max: nat) -> (Seq<Clause>, u64) {
    let n = 1 + rng::draw_below(s, 0, max);
    let cs = drawn_clauses(s, track, n);
    let used = 1 + 2 * n;
    if track == Track::B && n == 1 {
        if rng::draw(s, used) < CUTOFF_FIFTY {
            (
                cs.push(Clause { prim: rng::draw_below(s, used + 1, 4) as int, reps: 1 }),
                rng::advance(s, used + 2),
            )
        } else {
            (cs, rng::advance(s, used + 1))
        }
    } else {
        (cs, rng::advance(s, used))
    }
}

/// Whether ` and ` stands at position `i` of `s`.
pub open spec fn and_at(s: Seq<char>, i: int) -> bool {
    0 <= i && i + 5 <= s.len() && s.subrange(i, i + 5) == " and "@
}

/// The first position from `from` on where ` and ` stands in `s`.
pub open spec fn find_and(s: Seq<char>, from: int) -> Option<int>
    decreases s.len() - from,
{
    if from + 5 > s.len() {
        None
    } else if and_at(s, from) {
        Some(from)
    } else {
        find_and(s, from + 1)
    }
}

/// Whether `s` ends with `tail`.
pub open spec fn ends_with(s: Seq<char>, tail: Seq<char>) -> bool {
    s.len() >= tail.len() && s.skip(s.len() - tail.len()) == tail
}

/// `n` times the action of the primitive that `w` names.
pub open spec fn repeated(w: Seq<char>, n: nat) -> Option<Seq<char>> {
    if w == word(0) {
        Some(clause_actions(Clause { prim: 0, reps: n }))
    } else if w == word(1) {
        Some(clause_actions(Clause { prim: 1, reps: n }))
    } else if w == word(2) {
        Some(clause_actions(Clause { prim: 2, reps: n }))
    } else if w == word(3) {
        Some(clause_actions(Clause { prim: 3, reps: n }))
    } else {
        None
    }
}

/// What the words `s` ask for as one clause, if they are one.
pub open spec fn clause_meaning(s: Seq<char>) -> Option<Seq<char>> {
    let c = crate::text::trimmed(s);
    if ends_with(c, modifier(2)) {
        repeated(c.take(c.len() - modifier(2).len()), 2)
    } else if ends_with(c, modifier(3)) {
        repeated(c.take(c.len() - modifier(3).len()), 3)
    } else {
        repeated(c, 1)
    }
}

/// Two meanings one after the other, if there are two.
pub open spec fn joined(a: Option<Seq<char>>, b: Option<Seq<char>>) -> Option<Seq<char>> {
    match (a, b) {
        (Some(x), Some(y)) => Some(x + y),
        _ => None,
    }
}

/// What the command `s` asks for; `None` where it is malformed.
pub open spec fn meaning(s: Seq<char>) -> Option<Seq<char>>
    decreases s.len(),
{
    match find_and(s, 0) {
        None => clause_meaning(s),
        Some(i) => if 0 <= i <= s.len() - 5 {
            joined(clause_meaning(s.take(i)), meaning(s.skip(i + 5)))
        } else {
            None
        },
    }
}

/// The output made wrong: one action symbol more, or one less.
pub open spec fn miscounted(s: u64, output: Seq<char>) -> (Seq<char>, u64) {
    if output.len() == 0 {
        (output.push(action(rng::draw_below(s, 0, 4) as int)), rng::advance(s, 1))
    } else if rng::draw(s, 0) < CUTOFF_FIFTY {
        (output.drop_last(), rng::advance(s, 1))
    } else {
        (output.push(action(rng::draw_below(s, 1, 4) as int)), rng::advance(s, 2))
    }
}

/// What the command language under a track's compositions is.
pub open spec fn scan_model(track: Track) -> RuleModel {
    RuleModel {
        ready: true,
        demo: |s: u64|
            {
                let (cs, after) = rendered(s, track, 2);
                (DemoText { input: command_text(cs), output: command_actions(cs) }, after)
            },
        query: |s: u64|
            {
                let (cs, after) = rendered(s, track, 3);
                (QueryText { input: command_text(cs), target: command_actions(cs) }, after)
            },
        decides: |input: Seq<char>, output: Seq<char>| true,
        accepts: |input: Seq<char>, output: Seq<char>|
            meaning(input) == Some(crate::text::trimmed(output)),
        corrupted: |s: u64, output: Seq<char>| miscounted(s, output),
        policy: PolicyModel::ExcludeAnswer,
        header: None,
    }
}

pub struct ScanTask;

impl Task for ScanTask {
    open spec fn model(&self) -> TaskModel {
        TaskModel {
            name: "scan-tiny"@,
            stage: 0,
            policy: PolicyModel::ExcludeAnswer,
            rule: |s: u64, track: Track| (scan_model(track), s),
        }
    }

    fn name(&self) -> (r: &'static str) {
        "scan-tiny"
    }

    fn stage(&self) -> (r: u8) {
        0
    }

    fn demo_policy(&self) -> (r: DemoPolicy) {
        DemoPolicy::ExcludeAnswer
    }

    fn sample_rule(&self, _rng: &mut HarnessRng, track: Track) -> (r: BoxedRule) {
        // The "rule" is the command language itself; track selects which
        // compositions appear. Thrice + novel pairings are Track-B-only.
        BoxedRule { rule: Box::new(ScanRule { track }) }
    }
}

pub struct ScanRule {
    pub track: Track,
}

fn word_of(prim: usize) -> (r: &'static str)
    requires
        prim < 4,
    ensures
        r@ == word(prim as int),
{
    if prim == 0 {
        "jump"
    } else if prim == 1 {
        "walk"
    } else if prim == 2 {
        "turn left"
    } else {
        "turn right"
    }
}

fn action_of(prim: usize) -> (r: char)
    requires
        prim < 4,
    ensures
        r == action(prim as int),
{
    if prim == 0 {
        'J'
    } else if prim == 1 {
        'W'
    } else if prim == 2 {
        'L'
    } else {
        'R'
    }
}

/// Appends the action of `prim` to `acts`, `reps` times.
fn push_actions(acts: &mut String, prim: usize, reps: usize)
    requires
        prim < 4,
    ensures
        final(acts)@ == old(acts)@ + clause_actions(Clause { prim: prim as int, reps: reps as nat }),
{
    let mut i: usize = 0;
    let ghost all = clause_actions(Clause { prim: prim as int, reps: reps as nat });
    let ghost start = acts@;
    while i < reps
        invariant
            i <= reps,
            prim < 4,
            all == clause_actions(Clause { prim: prim as int, reps: reps as nat }),
            acts@ =~= start + all.take(i as int),
        decreases reps - i,
    {
        acts.push(action_of(prim));
        i = i + 1;
    }
    assert(all.take(i as int) =~= all);
}

/// Appends the words for doing `prim` `reps` times to `words`.
fn push_words(words: &mut String, prim: usize, reps: usize)
    requires
        prim < 4,
    ensures
        final(words)@ == old(words)@ + clause_text(
            Clause { prim: prim as int, reps: reps as nat },
        ),
{
    let ghost start = words@;
    words.append(word_of(prim));
    if reps == 2 {
        words.append(" twice");
    } else if reps == 3 {
        words.append(" thrice");
    }
    assert(words@ =~= start + clause_text(Clause { prim: prim as int, reps: reps as nat }));
}

/// A command grows by one clause.
proof fn lemma_command_step(cs: Seq<Clause>, i: int)
    requires
        0 <= i < cs.len(),
    ensures
        command_text(cs.take(i + 1)) == if i == 0 {
            command_text(cs.take(0)) + clause_text(cs[0])
        } else {
            command_text(cs.take(i)) + " and "@ + clause_text(cs[i])
        },
        command_actions(cs.take(i + 1)) == command_actions(cs.take(i)) + clause_actions(cs[i]),
{
    assert(cs.take(i + 1).drop_last() =~= cs.take(i));
    if i == 0 {
        assert(command_text(cs.take(0)) + clause_text(cs[0]) =~= clause_text(cs[0]));
    }
}

impl ScanRule {
    /// How often to do the next thing.
    fn reps(&self, rng: &mut HarnessRng) -> (r: usize)
        ensures
            r == drawn_reps(old(rng)@, 0, self.track),
            final(rng)@ == rng::advance(old(rng)@, 1),
    {
        match self.track {
            Track::A => {
                if rng.prob(Rate { cutoff: CUTOFF_FORTY }) {
                    2
                } else {
                    1
                }
            },
            Track::B => {
                let i: usize = rng.below(3);
                1 + i
            },
        }
    }

    /// Renders one command (1-3 clauses) under the track's allowed forms: its
    /// words and its actions.
    pub fn command(&self, rng: &mut HarnessRng, max_clauses: usize) -> (r: (String, String))
        requires
            0 < max_clauses < usize::MAX,
        ensures
            r.0@ == command_text(rendered(old(rng)@, self.track, max_clauses as nat).0),
            r.1@ == command_actions(rendered(old(rng)@, self.track, max_clauses as nat).0),
            final(rng)@ == rendered(old(rng)@, self.track, max_clauses as nat).1,
    {
        let ghost s = rng@;
        let n: usize = rng.range(1, max_clauses + 1);
        let mut words: String = String::new();
        let mut acts: String = String::new();
        let mut i: usize = 0;
        let ghost cs = drawn_clauses(s, self.track, n as nat);
        assert(cs.take(0) =~= Seq::<Clause>::empty());
        while i < n
            invariant
                i <= n,
                n >= 1,
                cs == drawn_clauses(s, self.track, n as nat),
                words@ == command_text(cs.take(i as int)),
                acts@ == command_actions(cs.take(i as int)),
                rng@ == rng::advance(s, (1 + 2 * i) as nat),
            decreases n - i,
        {
            proof {
                rng::lemma_next_draw(s, (1 + 2 * i) as nat);
                rng::lemma_next_draw(s, (2 + 2 * i) as nat);
                lemma_command_step(cs, i as int);
            }
            let prim: usize = rng.below(4);
            let reps: usize = self.reps(rng);
            assert(cs[i as int] == (Clause { prim: prim as int, reps: reps as nat }));
            if i > 0 {
                words.append(" and ");
            }
            push_words(&mut words, prim, reps);
            push_actions(&mut acts, prim, reps);
            i = i + 1;
        }
        assert(cs.take(i as int) =~= cs);
        // Track B biases toward multi-clause `and` compositions on top of the
        // thrice modifier above; the held-out axis is compositional form.
        proof {
            rng::lemma_next_draw(s, (1 + 2 * n) as nat);
            rng::lemma_next_draw(s, (2 + 2 * n) as nat);
        }
        if self.track == Track::B && n == 1 && rng.prob(Rate { cutoff: CUTOFF_FIFTY }) {
            let prim: usize = rng.below(4);
            words.append(" and ");
            push_words(&mut words, prim, 1);
            push_actions(&mut acts, prim, 1);
            proof {
                let c = Clause { prim: prim as int, reps: 1 };
                let now = cs.push(c);
                lemma_command_step(now, n as int);
                assert(now.take(n as int) =~= cs);
                assert(now.take(n + 1) =~= now);
            }
        }
        (words, acts)
    }

    /// Deterministic executor for the tiny command language. `None` on
    /// malformed input (never happens for generated instances).
    pub fn execute(input: &str) -> (r: Option<String>)
        ensures
            crate::text::text_of(r) == meaning(input@),
    {
        let mut acts: String = String::new();
        let mut tail: Vec<char> = crate::text::chars_of(input);
        proof {
            if meaning(tail@) is Some {
                assert(Seq::<char>::empty() + meaning(tail@)->0 =~= meaning(tail@)->0);
            }
        }
        loop
            invariant
                meaning(input@) == joined(Some(acts@), meaning(tail@)),
            decreases tail@.len(),
        {
            let total: usize = tail.len();
            let next: Option<usize> = next_and(&tail);
            let end: usize = match next {
                Some(i) => i,
                None => total,
            };
            let words: Vec<char> = crate::text::copy_range(&tail, 0, end);
            assert(words@ =~= tail@.take(end as int));
            assert(tail@.take(tail@.len() as int) =~= tail@);
            let ghost before = acts@;
            match read_clause(&words) {
                None => {
                    return None;
                },
                Some((prim, reps)) => {
                    push_actions(&mut acts, prim, reps);
                },
            }
            match next {
                None => {
                    return Some(acts);
                },
                Some(i) => {
                    let rest: Vec<char> = crate::text::copy_range(&tail, i + 5, total);
                    proof {
                        assert(rest@ =~= tail@.skip(i + 5));
                        if meaning(rest@) is Some {
                            let x = before;
                            let y = clause_meaning(words@)->0;
                            let z = meaning(rest@)->0;
                            assert((x + y) + z =~= x + (y + z));
                        }
                    }
                    tail = rest;
                },
            }
        }
    }
}

/// The first position where ` and ` stands in `s`.
fn next_and(s: &[char]) -> (r: Option<usize>)
    ensures
        (match r {
            Some(i) => Some(i as int),
            None => None,
        }) == find_and(s@, 0),
        r matches Some(i) ==> i + 5 <= s@.len(),
{
    let mut i: usize = 0;
    proof {
        reveal_strlit(" and ");
    }
    while i < s.len() && s.len() - i >= 5
        invariant
            i <= s@.len(),
            find_and(s@, 0) == find_and(s@, i as int),
            " and "@ =~= seq![' ', 'a', 'n', 'd', ' '],
        decreases s@.len() - i,
    {
        let hit: bool = s[i] == ' ' && s[i + 1] == 'a' && s[i + 2] == 'n' && s[i + 3] == 'd' && s[i
            + 4] == ' ';
        proof {
            let here = s@.subrange(i as int, i + 5);
            if hit {
                assert(here =~= " and "@);
            } else {
                assert(here[0] == s@[i as int] && here[1] == s@[i + 1] && here[2] == s@[i + 2]
                    && here[3] == s@[i + 3] && here[4] == s@[i + 4]);
            }
        }
        if hit {
            return Some(i);
        }
        i = i + 1;
    }
    None
}

/// Whether `s` ends with `tail`.
fn has_tail(s: &[char], tail: &str) -> (r: bool)
    ensures
        r == ends_with(s@, tail@),
{
    let t: Vec<char> = crate::text::chars_of(tail);
    if s.len() < t.len() {
        return false;
    }
    let end: Vec<char> = crate::text::copy_range(s, s.len() - t.len(), s.len());
    assert(end@ =~= s@.skip(s@.len() - t@.len()));
    crate::text::same_chars(&end, &t)
}

/// The primitive that `w` names; 4 if it names none.
fn read_word(w: &[char]) -> (r: usize)
    ensures
        r <= 4,
        forall|n: nat| #[trigger]
            repeated(w@, n) == if r < 4 {
                Some(clause_actions(Clause { prim: r as int, reps: n }))
            } else {
                None
            },
{
    let mut i: usize = 0;
    while i < 4
        invariant
            i <= 4,
            forall|j: int| 0 <= j < i ==> w@ != #[trigger] word(j),
        decreases 4 - i,
    {
        let name: Vec<char> = crate::text::chars_of(word_of(i));
        if crate::text::same_chars(w, &name) {
            assert(i > 0 ==> w@ != word(0));
            assert(i > 1 ==> w@ != word(1));
            assert(i > 2 ==> w@ != word(2));
            return i;
        }
        i = i + 1;
    }
    assert(w@ != word(0) && w@ != word(1) && w@ != word(2) && w@ != word(3));
    4
}

/// The primitive and the count that `words` name as one clause.
fn read_clause(words: &[char]) -> (r: Option<(usize, usize)>)
    ensures
        (match r {
            Some((prim, reps)) => Some(
                clause_actions(Clause { prim: prim as int, reps: reps as nat }),
            ),
            None => None,
        }) == clause_meaning(words@),
        r matches Some((prim, reps)) ==> prim < 4,
{
    let c: Vec<char> = crate::text::trim_chars(words);
    proof {
        reveal_strlit(" twice");
        reveal_strlit(" thrice");
    }
    let mut reps: usize = 1;
    let mut end: usize = c.len();
    if has_tail(&c, " twice") {
        reps = 2;
        end = end - 6;
    } else if has_tail(&c, " thrice") {
        reps = 3;
        end = end - 7;
    }
    let w: Vec<char> = crate::text::copy_range(&c, 0, end);
    assert(w@ =~= c@.take(end as int));
    assert(c@.take(c@.len() as int) =~= c@);
    let prim: usize = read_word(&w);
    assert(repeated(w@, reps as nat) == clause_meaning(words@));
    if prim < 4 {
        Some((prim, reps))
    } else {
        None
    }
}

impl Rule for ScanRule {
    open spec fn model(&self) -> RuleModel {
        scan_model(self.track)
    }

    fn render_demo(&self, rng: &mut HarnessRng) -> (d: Demo) {
        let (input, output) = self.command(rng, 2);
        Demo { input, output }
    }

    fn render_query(&self, rng: &mut HarnessRng) -> (q: Query) {
        let (input, target) = self.command(rng, 3);
        Query { input, target }
    }

    fn verify(&self, input: &str, output: &str) -> (r: bool) {
        // Re-derive: parse is deterministic, so check by re-execution.
        let got: Vec<char> = crate::text::trim(output);
        match ScanRule::execute(input) {
            Some(acts) => {
                let want: Vec<char> = crate::text::chars_of(acts.as_str());
                crate::text::same_chars(&want, &got)
            },
            None => false,
        }
    }

    /// Corrupts by dropping or adding one action symbol.
    fn corrupt(&self, rng: &mut HarnessRng, output: &str) -> (r: String) {
        let ghost s = rng@;
        proof {
            rng::lemma_advance_adds(s, 1, 1);
            assert(rng::draw(rng::advance(s, 1), 0) == rng::draw(s, 1));
        }
        let cs: Vec<char> = crate::text::chars_of(output);
        if cs.len() == 0 || !rng.prob(Rate { cutoff: CUTOFF_FIFTY }) {
            let mut out: String = output.to_string();
            let prim: usize = rng.below(4);
            out.push(action_of(prim));
            out
        } else {
            let kept: Vec<char> = crate::text::copy_range(&cs, 0, cs.len() - 1);
            assert(kept@ =~= output@.drop_last());
            crate::text::from_chars(&kept)
        }
    }

    fn demo_policy(&self) -> (r: DemoPolicy) {
        DemoPolicy::ExcludeAnswer
    }

    fn oracle_header(&self) -> (r: Option<String>) {
        None
    }
}

/// Whether ` and ` cannot begin inside `t`.
spec fn quiet(t: Seq<char>) -> bool {
    forall|i: int|
        0 <= i < t.len() && #[trigger] t[i] == ' ' ==> i + 1 < t.len() && t[i + 1] != 'a'
}

proof fn lemma_find_skips(s: Seq<char>, from: int, to: int)
    requires
        0 <= from <= to,
        to + 5 <= s.len(),
        forall|j: int| from <= j < to ==> !and_at(s, j),
    ensures
        find_and(s, from) == find_and(s, to),
    decreases to - from,
{
    if from < to {
        assert(!and_at(s, from));
        lemma_find_skips(s, from + 1, to);
    }
}

proof fn lemma_find_none(s: Seq<char>, from: int)
    requires
        0 <= from,
        forall|j: int| from <= j ==> !and_at(s, j),
    ensures
        find_and(s, from) is None,
    decreases s.len() - from,
{
    if from + 5 <= s.len() {
        assert(!and_at(s, from));
        lemma_find_none(s, from + 1);
    }
}

/// ` and ` is found right behind a quiet text, and nowhere in it.
proof fn lemma_find_behind_quiet(t: Seq<char>, tail: Seq<char>)
    requires
        quiet(t),
    ensures
        find_and(t + " and "@ + tail, 0) == Some(t.len() as int),
        find_and(t, 0) is None,
{
    reveal_strlit(" and ");
    let s = t + " and "@ + tail;
    assert forall|j: int| 0 <= j < t.len() implies !and_at(s, j) by {
        if and_at(s, j) {
            let here = s.subrange(j, j + 5);
            assert(here[0] == ' ' && here[1] == 'a');
            assert(s[j] == t[j] && s[j + 1] == here[1]);
        }
    }
    lemma_find_skips(s, 0, t.len() as int);
    assert(s.subrange(t.len() as int, t.len() as int + 5) =~= " and "@);
    assert(and_at(s, t.len() as int));
    assert forall|j: int| 0 <= j implies !and_at(t, j) by {
        if and_at(t, j) {
            let here = t.subrange(j, j + 5);
            assert(here[0] == ' ' && here[1] == 'a');
            assert(t[j] == here[0] && t[j + 1] == here[1]);
        }
    }
    lemma_find_none(t, 0);
}

proof fn lemma_word_shape(prim: int)
    requires
        0 <= prim < 4,
    ensures
        quiet(word(prim)),
        word(prim).len() >= 4,
        !crate::text::is_white(word(prim)[0]),
        word(prim).last() == 'p' || word(prim).last() == 'k' || word(prim).last() == 't',
{
    reveal_strlit("jump");
    reveal_strlit("walk");
    reveal_strlit("turn left");
    reveal_strlit("turn right");
}

proof fn lemma_words_distinct(a: int, b: int)
    requires
        0 <= a < 4,
        0 <= b < 4,
        a != b,
    ensures
        word(a) != word(b),
{
    reveal_strlit("jump");
    reveal_strlit("walk");
    reveal_strlit("turn left");
    reveal_strlit("turn right");
    assert("jump"@[0] != "walk"@[0]);
    assert("jump"@.len() == 4 && "walk"@.len() == 4 && "turn left"@.len() == 9
        && "turn right"@.len() == 10);
}

/// A sayable clause is quiet, has no white space at its ends, and means what
/// it says.
proof fn lemma_clause(c: Clause)
    requires
        sayable(c),
    ensures
        quiet(clause_text(c)),
        clause_meaning(clause_text(c)) == Some(clause_actions(c)),
{
    reveal_strlit(" twice");
    reveal_strlit(" thrice");
    let w = word(c.prim);
    let m = modifier(c.reps);
    let t = clause_text(c);
    lemma_word_shape(c.prim);
    assert forall|i: int| 0 <= i < t.len() && #[trigger] t[i] == ' ' implies i + 1 < t.len()
        && t[i + 1] != 'a' by {
        if i < w.len() {
            assert(t[i] == w[i]);
            assert(t[i + 1] == w[i + 1]);
        } else {
            assert(t[i] == m[i - w.len()]);
            assert(t[i + 1] == m[i + 1 - w.len()]);
        }
    }
    assert(t[0] == w[0]);
    assert(t.last() == if m.len() == 0 {
        w.last()
    } else {
        m.last()
    });
    crate::text::lemma_trimmed_id(t);
    let tail2 = modifier(2);
    let tail3 = modifier(3);
    if c.reps == 2 {
        assert(t.skip(t.len() - 6) =~= tail2);
        assert(t.take(t.len() - 6) =~= w);
    } else if c.reps == 3 {
        assert(t.skip(t.len() - 7) =~= tail3);
        assert(t.take(t.len() - 7) =~= w);
        assert(t.skip(t.len() - 6)[0] == tail3[1]);
        assert(tail2[0] != tail3[1]);
    } else {
        assert(t =~= w);
        if ends_with(t, tail2) {
            assert(t.skip(t.len() - 6)[5] == t[t.len() - 1]);
            assert(tail2[5] == 'e');
        }
        if ends_with(t, tail3) {
            assert(t.skip(t.len() - 7)[6] == t[t.len() - 1]);
            assert(tail3[6] == 'e');
        }
    }
    assert(repeated(w, c.reps) == Some(clause_actions(c))) by {
        if c.prim > 0 {
            lemma_words_distinct(c.prim, 0);
        }
        if c.prim > 1 {
            lemma_words_distinct(c.prim, 1);
        }
        if c.prim > 2 {
            lemma_words_distinct(c.prim, 2);
        }
    }
}

proof fn lemma_single_actions(cs: Seq<Clause>)
    requires
        cs.len() == 1,
    ensures
        command_actions(cs) == clause_actions(cs[0]),
{
    assert(command_actions(cs.drop_last()) =~= Seq::<char>::empty());
    assert(command_actions(cs) =~= clause_actions(cs[0]));
}

/// A command taken apart at its first clause.
proof fn lemma_command_front(cs: Seq<Clause>)
    requires
        cs.len() >= 2,
    ensures
        command_text(cs) == clause_text(cs[0]) + " and "@ + command_text(cs.drop_first()),
        command_actions(cs) == clause_actions(cs[0]) + command_actions(cs.drop_first()),
    decreases cs.len(),
{
    let front = cs.drop_last();
    let rest = cs.drop_first();
    assert(rest.last() == cs.last());
    assert(front[0] == cs[0]);
    if cs.len() == 2 {
        lemma_single_actions(front);
        lemma_single_actions(rest);
        assert(command_text(front) == clause_text(cs[0]));
        assert(command_text(rest) == clause_text(cs[1]));
    } else {
        lemma_command_front(front);
        assert(front.drop_first() =~= rest.drop_last());
        assert(command_text(cs) =~= clause_text(cs[0]) + " and "@ + command_text(rest));
        assert(command_actions(cs) =~= clause_actions(cs[0]) + command_actions(rest));
    }
}

/// Rendering a command and executing its words gives its actions: the executor
/// undoes the renderer on every command that can be said.
pub proof fn lemma_meaning_of_command(cs: Seq<Clause>)
    requires
        cs.len() > 0,
        forall|i: int| 0 <= i < cs.len() ==> sayable(#[trigger] cs[i]),
    ensures
        meaning(command_text(cs)) == Some(command_actions(cs)),
    decreases cs.len(),
{
    let t = clause_text(cs[0]);
    let rest = cs.drop_first();
    assert(sayable(cs[0]));
    lemma_clause(cs[0]);
    if cs.len() == 1 {
        lemma_find_behind_quiet(t, Seq::empty());
        lemma_single_actions(cs);
    } else {
        assert forall|i: int| 0 <= i < rest.len() implies sayable(#[trigger] rest[i]) by {
            assert(rest[i] == cs[i + 1]);
        }
        lemma_meaning_of_command(rest);
        lemma_command_front(cs);
        let tail = command_text(rest);
        let s = command_text(cs);
        lemma_find_behind_quiet(t, tail);
        reveal_strlit(" and ");
        assert(s.take(t.len() as int) =~= t);
        assert(s.skip(t.len() as int + 5) =~= tail);
    }
}

/// A rendered command has between one clause and `max` of them (track B may
/// follow a single one up), all of them sayable.
pub proof fn lemma_rendered(s: u64, track: Track, max: nat)
    requires
        max > 0,
    ensures
        ({
            let cs = rendered(s, track, max).0;
            &&& 1 <= cs.len()
            &&& cs.len() <= max || (track == Track::B && cs.len() == 2)
            &&& forall|i: int| 0 <= i < cs.len() ==> sayable(#[trigger] cs[i])
            &&& track == Track::A ==> forall|i: int|
                0 <= i < cs.len() ==> (#[trigger] cs[i]).reps <= 2
        }),
{
}

/// The rule accepts the answer to each of its queries and, but for white space
/// around it, no other.
pub proof fn lemma_scan_judges_own_queries(track: Track, s: u64, output: Seq<char>)
    ensures
        ({
            let m = scan_model(track);
            let q = (m.query)(s).0;
            &&& (m.accepts)(q.input, q.target)
            &&& (m.accepts)(q.input, output) ==> crate::text::trimmed(output) == q.target
        }),
{
    let cs = rendered(s, track, 3).0;
    lemma_rendered(s, track, 3);
    lemma_meaning_of_command(cs);
    lemma_actions_print(cs);
    crate::text::lemma_trimmed_id(command_actions(cs));
}

proof fn lemma_actions_print(cs: Seq<Clause>)
    ensures
        forall|i: int|
            0 <= i < command_actions(cs).len() ==> !crate::text::is_white(
                #[trigger] command_actions(cs)[i],
            ),
    decreases cs.len(),
{
    if cs.len() > 0 {
        let front = command_actions(cs.drop_last());
        let c = cs.last();
        lemma_actions_print(cs.drop_last());
        assert forall|i: int| 0 <= i < command_actions(cs).len() implies !crate::text::is_white(
            #[trigger] command_actions(cs)[i],
        ) by {
            if i >= front.len() {
                assert(command_actions(cs)[i] == clause_actions(c)[i - front.len()]);
            }
        }
    }
}

/// A corrupted answer is never the answer.
pub proof fn lemma_miscounted_differs(s: u64, output: Seq<char>)
    ensures
        miscounted(s, output).0 != output,
{
    assert(miscounted(s, output).0.len() != output.len());
}

proof fn lemma_add_printable(a: Seq<char>, b: Seq<char>)
    requires
        super::printable(a),
        super::printable(b),
    ensures
        super::printable(a + b),
{
    let c = a + b;
    assert forall|i: int| 0 <= i < c.len() implies ' ' <= #[trigger] c[i] <= '~' by {
        if i < a.len() {
            assert(c[i] == a[i]);
        } else {
            assert(c[i] == b[i - a.len()]);
        }
    }
}

/// Commands and actions are printable.
proof fn lemma_command_printable(cs: Seq<Clause>)
    ensures
        super::printable(command_text(cs)),
        super::printable(command_actions(cs)),
    decreases cs.len(),
{
    reveal_strlit("jump");
    reveal_strlit("walk");
    reveal_strlit("turn left");
    reveal_strlit("turn right");
    reveal_strlit(" twice");
    reveal_strlit(" thrice");
    reveal_strlit(" and ");
    if cs.len() > 0 {
        let front = cs.drop_last();
        let c = cs.last();
        lemma_command_printable(front);
        lemma_add_printable(word(c.prim), modifier(c.reps));
        lemma_add_printable(command_text(front), " and "@);
        lemma_add_printable(command_text(front) + " and "@, clause_text(c));
        lemma_add_printable(command_actions(front), clause_actions(c));
    }
}

/// Everything that the rule of a track says is printable.
pub proof fn lemma_scan_printable(track: Track)
    ensures
        demo::speaks_plainly(scan_model(track)),
{
    let m = scan_model(track);
    assert forall|t: u64|
        super::printable((#[trigger] (m.demo)(t)).0.input) && super::printable(
            (m.demo)(t).0.output,
        ) by {
        lemma_command_printable(rendered(t, track, 2).0);
    }
    assert forall|t: u64|
        super::printable((#[trigger] (m.query)(t)).0.input) && super::printable(
            (m.query)(t).0.target,
        ) by {
        lemma_command_printable(rendered(t, track, 3).0);
    }
    assert forall|t: u64, o: Seq<char>| super::printable(o) implies super::printable(
        (#[trigger] (m.corrupted)(t, o)).0,
    ) by {
        let wrong = miscounted(t, o).0;
        assert forall|i: int| 0 <= i < wrong.len() implies ' ' <= #[trigger] wrong[i] <= '~' by {
            if i < o.len() {
                assert(wrong[i] == o[i]);
            }
        }
    }
}

/// Every demo that a rule of the task renders is right by that rule.
pub proof fn lemma_scan_demos_right(track: Track)
    ensures
        super::demos_right(scan_model(track)),
{
    let m = scan_model(track);
    assert forall|t: u64| super::right_by(m, (#[trigger] (m.demo)(t)).0) by {
        let cs = rendered(t, track, 2).0;
        lemma_rendered(t, track, 2);
        lemma_meaning_of_command(cs);
        lemma_actions_print(cs);
        crate::text::lemma_trimmed_id(command_actions(cs));
    }
}

/// White space goes only from the ends of a text: a first character that is
/// none stays first.
proof fn lemma_trimmed_first(s: Seq<char>)
    requires
        s.len() > 0,
        !crate::text::is_white(s[0]),
    ensures
        crate::text::trimmed(s).len() > 0,
        crate::text::trimmed(s)[0] == s[0],
    decreases s.len(),
{
    if crate::text::is_white(s.last()) {
        assert(s.len() > 1);
        lemma_trimmed_first(s.drop_last());
    }
}

/// A last character that is no white space stays last.
proof fn lemma_trimmed_last(s: Seq<char>)
    requires
        s.len() > 0,
        !crate::text::is_white(s.last()),
    ensures
        crate::text::trimmed(s).len() > 0,
        crate::text::trimmed(s).last() == s.last(),
    decreases s.len(),
{
    if crate::text::is_white(s[0]) {
        assert(s.len() > 1);
        lemma_trimmed_last(s.drop_first());
        assert(crate::text::trimmed(s) == crate::text::trimmed(s.drop_first()));
    }
}

/// The words of the language, seen from their ends.
proof fn lemma_word_ends(prim: int)
    ensures
        word(prim).len() > 0,
        word(prim)[0] != 'a',
        word(prim).last() != 'd',
        modifier(2).len() > 0,
        modifier(2).last() == 'e',
        modifier(3).len() > 0,
        modifier(3).last() == 'e',
{
    reveal_strlit("jump");
    reveal_strlit("walk");
    reveal_strlit("turn left");
    reveal_strlit("turn right");
    reveal_strlit(" twice");
    reveal_strlit(" thrice");
}

/// No clause starts with `a`.
proof fn lemma_clause_first(s: Seq<char>)
    requires
        s.len() > 0,
        s[0] == 'a',
    ensures
        clause_meaning(s) is None,
{
    let c = crate::text::trimmed(s);
    lemma_trimmed_first(s);
    lemma_word_ends(0);
    lemma_word_ends(1);
    lemma_word_ends(2);
    lemma_word_ends(3);
    let two = c.take(c.len() - modifier(2).len());
    let three = c.take(c.len() - modifier(3).len());
    assert(modifier(2).len() < c.len() ==> two[0] == 'a');
    assert(modifier(3).len() < c.len() ==> three[0] == 'a');
}

/// No clause ends with `d`.
proof fn lemma_clause_last(s: Seq<char>)
    requires
        s.len() > 0,
        s.last() == 'd',
    ensures
        clause_meaning(s) is None,
{
    let c = crate::text::trimmed(s);
    lemma_trimmed_last(s);
    lemma_word_ends(0);
    lemma_word_ends(1);
    lemma_word_ends(2);
    lemma_word_ends(3);
    if modifier(2).len() <= c.len() {
        assert(c.skip(c.len() - modifier(2).len()).last() == c.last());
    }
    if modifier(3).len() <= c.len() {
        assert(c.skip(c.len() - modifier(3).len()).last() == c.last());
    }
}

/// What is found is ` and `, and nothing before it is.
proof fn lemma_found(s: Seq<char>, from: int)
    requires
        0 <= from,
    ensures
        match find_and(s, from) {
            Some(i) => from <= i && and_at(s, i) && forall|j: int| from <= j < i ==> !and_at(s, j),
            None => forall|j: int| from <= j ==> !and_at(s, j),
        },
    decreases s.len() - from,
{
    if from + 5 <= s.len() && !and_at(s, from) {
        lemma_found(s, from + 1);
    }
}

/// A text that starts with `a` is no command.
proof fn lemma_meaning_first(s: Seq<char>)
    requires
        s.len() > 0,
        s[0] == 'a',
    ensures
        meaning(s) is None,
{
    reveal_strlit(" and ");
    lemma_found(s, 0);
    match find_and(s, 0) {
        None => lemma_clause_first(s),
        Some(i) => {
            assert(s.subrange(i, i + 5)[0] == ' ');
            assert(i > 0);
            lemma_clause_first(s.take(i));
        },
    }
}

/// A text that ends with `d` is no command.
proof fn lemma_meaning_last(s: Seq<char>)
    requires
        s.len() > 0,
        s.last() == 'd',
    ensures
        meaning(s) is None,
    decreases s.len(),
{
    reveal_strlit(" and ");
    lemma_found(s, 0);
    match find_and(s, 0) {
        None => lemma_clause_last(s),
        Some(i) => {
            assert(s.subrange(i, i + 5)[4] == ' ');
            assert(i + 5 < s.len());
            lemma_meaning_last(s.skip(i + 5));
        },
    }
}

/// Where the first ` and ` of `a and b` stands: between the two, inside `a`
/// where it is the first one too, or in `a` but for the space behind it.
proof fn lemma_first_and(a: Seq<char>, b: Seq<char>) -> (i: int)
    ensures
        find_and(a + " and "@ + b, 0) == Some(i),
        0 <= i <= a.len(),
        i == a.len() ==> find_and(a, 0) is None,
        i + 5 <= a.len() ==> find_and(a, 0) == Some(i),
        i < a.len() < i + 5 ==> i + 4 == a.len() && a.last() == 'd',
{
    reveal_strlit(" and ");
    let s = a + " and "@ + b;
    let n = a.len() as int;
    lemma_found(s, 0);
    lemma_found(a, 0);
    assert(s.subrange(n, n + 5) =~= " and "@);
    assert(and_at(s, n));
    let i = find_and(s, 0)->0;
    assert forall|j: int| 0 <= j && j + 5 <= n implies and_at(a, j) == and_at(s, j) by {
        assert(a.subrange(j, j + 5) =~= s.subrange(j, j + 5));
    }
    if i + 5 <= n {
        let k = find_and(a, 0)->0;
        assert(and_at(a, i));
        assert(and_at(s, k));
    } else if i == n {
        if find_and(a, 0) is Some {
            assert(and_at(s, find_and(a, 0)->0));
        }
    } else {
        let here = s.subrange(i, i + 5);
        assert(s[n] == here[n - i]);
        assert(s[n] == ' ');
        assert(here[1] == 'a' && here[2] == 'n' && here[3] == 'd');
        assert(a[n - 1] == here[3]);
    }
    i
}

/// The empty text is no command.
proof fn lemma_meaning_empty()
    ensures
        meaning(Seq::<char>::empty()) is None,
{
    let nothing = Seq::<char>::empty();
    lemma_word_ends(0);
    lemma_word_ends(1);
    lemma_word_ends(2);
    lemma_word_ends(3);
    assert(find_and(nothing, 0) is None);
    assert(crate::text::trimmed(nothing) == nothing);
}

/// Conjunction, for any two texts: `a and b` asks for what `a` asks for and then
/// for what `b` asks for, and is malformed if either of them is. The empty text
/// is malformed.
pub proof fn lemma_conjunction(a: Seq<char>, b: Seq<char>)
    ensures
        meaning(a + " and "@ + b) == joined(meaning(a), meaning(b)),
        meaning(a) is None || meaning(b) is None ==> meaning(a + " and "@ + b) is None,
        meaning(Seq::<char>::empty()) is None,
    decreases a.len(),
{
    let s = a + " and "@ + b;
    let n = a.len() as int;
    lemma_meaning_empty();
    let i = lemma_first_and(a, b);
    assert(" and "@.len() == 5 && " and "@[0] == ' ' && " and "@[1] == 'a') by {
        reveal_strlit(" and ");
    }
    assert(meaning(s) == joined(clause_meaning(s.take(i)), meaning(s.skip(i + 5))));
    if i == n {
        assert(s.take(n) =~= a);
        assert(s.skip(n + 5) =~= b);
    } else if i + 5 <= n {
        let rest = a.skip(i + 5);
        let head = clause_meaning(a.take(i));
        assert(s.take(i) =~= a.take(i));
        assert(s.skip(i + 5) =~= rest + " and "@ + b);
        lemma_conjunction(rest, b);
        assert(meaning(a) == joined(head, meaning(rest)));
        match (head, meaning(rest), meaning(b)) {
            (Some(x), Some(y), Some(z)) => {
                assert(x + (y + z) =~= (x + y) + z);
            },
            _ => {},
        }
    } else {
        let rest = s.skip(i + 5);
        assert(rest[0] == 'a');
        lemma_meaning_last(a);
        lemma_meaning_first(rest);
    }
}

/// The commands of one word, and what they ask for; and how saying `twice` or
/// `thrice` behind one multiplies that.
pub proof fn lemma_primitives()
    ensures
        meaning("jump"@) == Some(seq!['J']),
        meaning("walk"@) == Some(seq!['W']),
        meaning("turn left"@) == Some(seq!['L']),
        meaning("turn right"@) == Some(seq!['R']),
        meaning("jump twice"@) == Some(seq!['J', 'J']),
        meaning("walk twice"@) == Some(seq!['W', 'W']),
        meaning("turn left twice"@) == Some(seq!['L', 'L']),
        meaning("turn right twice"@) == Some(seq!['R', 'R']),
        meaning("jump thrice"@) == Some(seq!['J', 'J', 'J']),
        meaning("walk thrice"@) == Some(seq!['W', 'W', 'W']),
        meaning("turn left thrice"@) == Some(seq!['L', 'L', 'L']),
        meaning("turn right thrice"@) == Some(seq!['R', 'R', 'R']),
{
    reveal_strlit("jump");
    reveal_strlit("walk");
    reveal_strlit("turn left");
    reveal_strlit("turn right");
    reveal_strlit(" twice");
    reveal_strlit(" thrice");
    reveal_strlit("jump twice");
    reveal_strlit("walk twice");
    reveal_strlit("turn left twice");
    reveal_strlit("turn right twice");
    reveal_strlit("jump thrice");
    reveal_strlit("walk thrice");
    reveal_strlit("turn left thrice");
    reveal_strlit("turn right thrice");
    lemma_said(0, 1, "jump"@, seq!['J']);
    lemma_said(1, 1, "walk"@, seq!['W']);
    lemma_said(2, 1, "turn left"@, seq!['L']);
    lemma_said(3, 1, "turn right"@, seq!['R']);
    lemma_said(0, 2, "jump twice"@, seq!['J', 'J']);
    lemma_said(1, 2, "walk twice"@, seq!['W', 'W']);
    lemma_said(2, 2, "turn left twice"@, seq!['L', 'L']);
    lemma_said(3, 2, "turn right twice"@, seq!['R', 'R']);
    lemma_said(0, 3, "jump thrice"@, seq!['J', 'J', 'J']);
    lemma_said(1, 3, "walk thrice"@, seq!['W', 'W', 'W']);
    lemma_said(2, 3, "turn left thrice"@, seq!['L', 'L', 'L']);
    lemma_said(3, 3, "turn right thrice"@, seq!['R', 'R', 'R']);
}

/// A clause said in the words `said` asks for `acts`.
proof fn lemma_said(prim: int, reps: nat, said: Seq<char>, acts: Seq<char>)
    requires
        0 <= prim < 4,
        1 <= reps <= 3,
        said =~= word(prim) + modifier(reps),
        acts.len() == reps,
        forall|i: int| 0 <= i < reps ==> acts[i] == action(prim),
    ensures
        meaning(said) == Some(acts),
{
    let cs = seq![Clause { prim, reps }];
    lemma_meaning_of_command(cs);
    lemma_single_actions(cs);
    assert(command_text(cs) == clause_text(cs[0]));
    assert(said == clause_text(cs[0]));
    assert(acts =~= clause_actions(cs[0]));
}

/// Different primitives ask for different actions, so that what a command asks
/// for tells what it says.
pub proof fn lemma_actions_differ(a: int, b: int)
    requires
        0 <= a < 4,
        0 <= b < 4,
        a != b,
    ensures
        action(a) != action(b),
        word(a) != word(b),
{
    lemma_words_distinct(a, b);
}

/// Joining commands joins their words with ` and ` and their actions with
/// nothing.
pub proof fn lemma_commands_join(a: Seq<Clause>, b: Seq<Clause>)
    requires
        a.len() > 0,
        b.len() > 0,
    ensures
        command_text(a + b) == command_text(a) + " and "@ + command_text(b),
        command_actions(a + b) == command_actions(a) + command_actions(b),
    decreases b.len(),
{
    let front = b.drop_last();
    assert((a + b).drop_last() =~= a + front);
    assert((a + b).last() == b.last());
    if b.len() == 1 {
        assert(a + front =~= a);
        lemma_single_actions(b);
        assert(b[0] == b.last());
        assert(command_actions(a + b) =~= command_actions(a) + command_actions(b));
    } else {
        lemma_commands_join(a, front);
        assert(command_text(a + b) =~= command_text(a) + " and "@ + command_text(b));
        assert(command_actions(a + b) =~= command_actions(a) + command_actions(b));
    }
}

/// What is rendered: a command of as many clauses as the first word drawn says,
/// one to `max`; for each of them two words, one for the primitive and one for
/// how often; on track B, where there is a single clause, a fair coin may add a
/// bare primitive.
pub proof fn lemma_rendered_draws(s: u64, track: Track, max: nat)
    requires
        max > 0,
    ensures
        ({
            let n = 1 + rng::draw(s, 0) as nat % max;
            let (cs, after) = rendered(s, track, max);
            let more = track == Track::B && n == 1 && rng::draw(s, 3) < 0x7FFF_FFFF_FFFF_FE00;
            &&& cs.len() == n + if more {
                1nat
            } else {
                0
            }
            &&& forall|i: int|
                0 <= i < n ==> {
                    &&& (#[trigger] cs[i]).prim == rng::draw(s, (1 + 2 * i) as nat) % 4
                    &&& cs[i].reps == match track {
                        Track::A => if rng::draw(s, (2 + 2 * i) as nat) < 0x6666_6666_6666_6600 {
                            2
                        } else {
                            1nat
                        },
                        Track::B => 1 + rng::draw(s, (2 + 2 * i) as nat) as nat % 3,
                    }
                }
            &&& more ==> cs[1] == (Clause { prim: (rng::draw(s, 4) % 4) as int, reps: 1 })
            &&& after == rng::advance(
                s,
                if more {
                    5
                } else if track == Track::B && n == 1 {
                    4
                } else {
                    1 + 2 * n
                },
            )
        }),
{
}

/// A miscounted answer is the answer without its last action, on a fair coin and
/// if it has one; else with an action more at its end, the one that the next draw
/// points at.
pub proof fn lemma_miscounted(s: u64, output: Seq<char>)
    ensures
        ({
            let (wrong, after) = miscounted(s, output);
            let symbols = seq!['J', 'W', 'L', 'R'];
            if output.len() == 0 {
                wrong == seq![symbols[(rng::draw(s, 0) % 4) as int]] && after == rng::advance(s, 1)
            } else if rng::draw(s, 0) < 0x7FFF_FFFF_FFFF_FE00 {
                wrong.len() + 1 == output.len() && wrong == output.take(output.len() - 1) && after
                    == rng::advance(s, 1)
            } else {
                wrong == output + seq![symbols[(rng::draw(s, 1) % 4) as int]] && after
                    == rng::advance(s, 2)
            }
        }),
{
    let wrong = miscounted(s, output).0;
    let symbols = seq!['J', 'W', 'L', 'R'];
    if output.len() == 0 {
        assert(wrong =~= seq![symbols[(rng::draw(s, 0) % 4) as int]]);
    } else if rng::draw(s, 0) < 0x7FFF_FFFF_FFFF_FE00 {
        assert(wrong =~= output.take(output.len() - 1));
    } else {
        assert(wrong =~= output + seq![symbols[(rng::draw(s, 1) % 4) as int]]);
    }
}

/// What a clause says and asks for, in letters: its primitive, and as often as
/// it says.
pub proof fn lemma_clause_spelled(c: Clause)
    requires
        sayable(c),
    ensures
        clause_text(c) == seq!["jump"@, "walk"@, "turn left"@, "turn right"@][c.prim] + seq![
            Seq::<char>::empty(),
            " twice"@,
            " thrice"@,
        ][c.reps - 1],
        clause_actions(c).len() == c.reps,
        forall|i: int|
            0 <= i < c.reps ==> #[trigger] clause_actions(c)[i] == seq!['J', 'W', 'L', 'R'][c.prim],
        command_text(seq![c]) == clause_text(c),
        command_actions(seq![c]) == clause_actions(c),
{
    lemma_single_actions(seq![c]);
}

/// What the task asks on each track: the command that is drawn, of one or two
/// clauses in demos and up to three in queries (track B may add one to a single
/// clause), and the actions it asks for. Answers are judged by what the command
/// asks for.
pub proof fn lemma_scan_asks(s: u64, track: Track, t: u64, input: Seq<char>, output: Seq<char>)
    ensures
        ({
            let (m, last) = (ScanTask.model().rule)(s, track);
            let (few, u) = rendered(t, track, 2);
            let (many, v) = rendered(t, track, 3);
            let d = (m.demo)(t).0;
            let q = (m.query)(t).0;
            &&& last == s
            &&& m.ready
            &&& (m.decides)(input, output)
            &&& m.policy == PolicyModel::ExcludeAnswer
            &&& m.header is None
            &&& d.input == command_text(few)
            &&& d.output == command_actions(few)
            &&& meaning(d.input) == Some(d.output)
            &&& (m.demo)(t).1 == u
            &&& q.input == command_text(many)
            &&& q.target == command_actions(many)
            &&& meaning(q.input) == Some(q.target)
            &&& (m.query)(t).1 == v
            &&& (m.accepts)(input, output) <==> meaning(input) == Some(crate::text::trimmed(output))
            &&& (m.corrupted)(t, output) == miscounted(t, output)
        }),
{
    let m = scan_model(track);
    let (few, u) = rendered(t, track, 2);
    let (many, v) = rendered(t, track, 3);
    lemma_rendered_draws(t, track, 2);
    lemma_rendered_draws(t, track, 3);
    lemma_meaning_of_command(few);
    lemma_meaning_of_command(many);
}

/// What a text without ` and ` asks for: something only if it says one clause,
/// with white space around it at most, and then just what that clause asks for.
/// Any other such text is malformed.
pub proof fn lemma_single_clause(s: Seq<char>, acts: Seq<char>)
    requires
        forall|i: int|
            0 <= i && i + 5 <= s.len() ==> #[trigger] s.subrange(i, i + 5) != seq![
                ' ',
                'a',
                'n',
                'd',
                ' ',
            ],
    ensures
        meaning(s) == Some(acts) <==> exists|c: Clause|
            sayable(c) && crate::text::trimmed(s) == #[trigger] clause_text(c) && acts
                == clause_actions(c),
{
    reveal_strlit(" and ");
    assert(" and "@ =~= seq![' ', 'a', 'n', 'd', ' ']);
    lemma_found(s, 0);
    assert(find_and(s, 0) is None) by {
        match find_and(s, 0) {
            Some(i) => {
                assert(s.subrange(i, i + 5) == " and "@);
            },
            None => {},
        }
    }
    let t = crate::text::trimmed(s);
    if meaning(s) == Some(acts) {
        let (w, reps) = if ends_with(t, modifier(2)) {
            (t.take(t.len() - modifier(2).len()), 2nat)
        } else if ends_with(t, modifier(3)) {
            (t.take(t.len() - modifier(3).len()), 3nat)
        } else {
            (t, 1nat)
        };
        let prim: int = if w == word(0) {
            0
        } else if w == word(1) {
            1
        } else if w == word(2) {
            2
        } else {
            3
        };
        let c = Clause { prim, reps };
        assert(repeated(w, reps) == Some(acts));
        assert(w == word(prim));
        assert(t =~= w + modifier(reps));
        assert(sayable(c) && t == clause_text(c) && acts == clause_actions(c));
    }
    if exists|c: Clause|
        sayable(c) && t == #[trigger] clause_text(c) && acts == clause_actions(c) {
        let c = choose|c: Clause|
            sayable(c) && t == #[trigger] clause_text(c) && acts == clause_actions(c);
        lemma_clause(c);
        crate::text::lemma_trimmed_twice(s);
        assert(clause_meaning(t) == Some(acts));
        assert(clause_meaning(s) == clause_meaning(t));
    }
}

/// Two commands joined: first what the one asks for, then what the other does.
pub proof fn lemma_joined_in_order(a: Seq<char>, b: Seq<char>, x: Seq<char>, y: Seq<char>)
    requires
        meaning(a) == Some(x),
        meaning(b) == Some(y),
    ensures
        meaning(a + seq![' ', 'a', 'n', 'd', ' '] + b) == Some(x + y),
{
    reveal_strlit(" and ");
    assert(" and "@ =~= seq![' ', 'a', 'n', 'd', ' ']);
    lemma_conjunction(a, b);
}

} // verus!
