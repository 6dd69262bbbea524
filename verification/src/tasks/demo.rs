//! In-context demonstration protocol (README, "In-context demonstration
//! protocol"). Applied uniformly to every task: tasks define latent rules,
//! this module defines how demos ship with each instance.

use vstd::prelude::*;
use vstd::utf8::*;

use super::rate::{Rate, CUTOFF_FIFTEEN, CUTOFF_FIFTY, CUTOFF_FIVE};
use super::rng;
use super::rng::HarnessRng;
use super::{Demo, DemoPolicy, Instance, Query, Rule, Track};
use super::{DemoText, InstanceModel, PolicyModel, QueryText, RuleModel};

verus! {

/// Per-instance metadata for metrics (accuracy-vs-k, copy-rate, leakage).
#[derive(Debug)]
pub struct InstanceInfo {
    pub task: &'static str,
    pub stage: u8,
    pub track: Track,
    pub k: usize,
    pub demos: Vec<Demo>,
    pub query_input: String,
    pub expected: String,
    pub corrupted_demo: bool,
    pub query_first: bool,
}

impl InstanceInfo {
    /// The metadata of an instance that nothing is known of.
    pub fn test_info() -> (r: Self)
        ensures
            r.task@ == "test"@,
            r.stage == 0,
            r.track == Track::A,
            r.k == 0,
            r.demos@.len() == 0,
            r.query_input@.len() == 0,
            r.expected@.len() == 0,
            !r.corrupted_demo,
            !r.query_first,
    {
        InstanceInfo {
            task: "test",
            stage: 0,
            track: Track::A,
            k: 0,
            demos: Vec::new(),
            query_input: String::new(),
            expected: String::new(),
            corrupted_demo: false,
            query_first: false,
        }
    }
}

/// A copy of `demos`.
pub fn copy_demos(demos: &Vec<Demo>) -> (r: Vec<Demo>)
    ensures
        demo_texts(r@) == demo_texts(demos@),
{
    let mut out: Vec<Demo> = Vec::new();
    let mut i: usize = 0;
    while i < demos.len()
        invariant
            i <= demos@.len(),
            out@.len() == i,
            forall|j: int| 0 <= j < i ==> (#[trigger] out@[j])@ == demos@[j]@,
        decreases demos@.len() - i,
    {
        out.push(demos[i].clone());
        i = i + 1;
    }
    assert(demo_texts(out@) =~= demo_texts(demos@));
    out
}

impl Clone for InstanceInfo {
    fn clone(&self) -> (r: Self)
        ensures
            r.task@ == self.task@,
            r.stage == self.stage,
            r.track == self.track,
            r.k == self.k,
            demo_texts(r.demos@) == demo_texts(self.demos@),
            r.query_input@ == self.query_input@,
            r.expected@ == self.expected@,
            r.corrupted_demo == self.corrupted_demo,
            r.query_first == self.query_first,
    {
        InstanceInfo {
            task: self.task,
            stage: self.stage,
            track: self.track,
            k: self.k,
            demos: copy_demos(&self.demos),
            query_input: self.query_input.clone(),
            expected: self.expected.clone(),
            corrupted_demo: self.corrupted_demo,
            query_first: self.query_first,
        }
    }
}

/// What the demos of a prompt say.
pub open spec fn demo_texts(demos: Seq<Demo>) -> Seq<DemoText> {
    demos.map_values(|d: Demo| d@)
}

/// What a [`DemoProtocol`] says.
pub struct ProtocolModel {
    pub k_set: Seq<usize>,
    pub k0_rate: Rate,
    pub corrupt_rate: Rate,
    pub seps: Seq<Seq<char>>,
}

#[derive(Debug, Clone)]
pub struct DemoProtocol {
    /// k values sampled per instance.
    pub k_set: Vec<usize>,
    /// P(k = 0).
    pub k0_rate: Rate,
    /// P(one corrupted demo | k > 0).
    pub corrupt_rate: Rate,
    /// Separator pool for `input SEP output` pairs.
    pub seps: Vec<String>,
}

impl View for DemoProtocol {
    type V = ProtocolModel;

    open spec fn view(&self) -> ProtocolModel {
        ProtocolModel {
            k_set: self.k_set@,
            k0_rate: self.k0_rate,
            corrupt_rate: self.corrupt_rate,
            seps: super::texts(self.seps@),
        }
    }
}

/// The standing protocol: k from {0, 1, 2, 3, 5, 8}, no demo in 15% of the
/// instances, one corrupted demo in 5% of the others, four separators.
pub open spec fn default_protocol() -> ProtocolModel {
    ProtocolModel {
        k_set: seq![0usize, 1usize, 2usize, 3usize, 5usize, 8usize],
        k0_rate: Rate { cutoff: CUTOFF_FIFTEEN },
        corrupt_rate: Rate { cutoff: CUTOFF_FIVE },
        seps: seq![seq!['-', '>'], seq![':'], seq!['='], seq!['|']],
    }
}

impl Default for DemoProtocol {
    fn default() -> (r: Self)
        ensures
            r@ == default_protocol(),
    {
        let mut k_set: Vec<usize> = Vec::new();
        k_set.push(0);
        k_set.push(1);
        k_set.push(2);
        k_set.push(3);
        k_set.push(5);
        k_set.push(8);
        let mut seps: Vec<String> = Vec::new();
        seps.push("->".to_string());
        seps.push(":".to_string());
        seps.push("=".to_string());
        seps.push("|".to_string());
        proof {
            reveal_strlit("->");
            reveal_strlit(":");
            reveal_strlit("=");
            reveal_strlit("|");
            assert(k_set@ =~= default_protocol().k_set);
            assert(seps@[0]@ =~= seq!['-', '>']);
            assert(seps@[1]@ =~= seq![':']);
            assert(seps@[2]@ =~= seq!['=']);
            assert(seps@[3]@ =~= seq!['|']);
            assert(super::texts(seps@) =~= default_protocol().seps);
        }
        DemoProtocol {
            k_set,
            k0_rate: Rate { cutoff: CUTOFF_FIFTEEN },
            corrupt_rate: Rate { cutoff: CUTOFF_FIVE },
            seps,
        }
    }
}

/// Bounded resample tries per demo slot. Large enough that exclusion /
/// balancing always succeeds on real tasks (output spaces are far from
/// singleton); on exhaustion the last render is kept, so that building an
/// instance always ends.
pub const RESAMPLE_TRIES: u64 = 32;

/// The positive entries of `ks`, in their order.
pub open spec fn positives(ks: Seq<usize>) -> Seq<usize>
    decreases ks.len(),
{
    if ks.len() == 0 {
        ks
    } else if ks.last() > 0 {
        positives(ks.drop_last()).push(ks.last())
    } else {
        positives(ks.drop_last())
    }
}

/// The number of demos sampled from state `s`, and the state after it: uniform
/// over the positive entries; 0 if the set has none.
pub open spec fn sampled_k(p: ProtocolModel, s: u64) -> (nat, u64) {
    let pool = positives(p.k_set);
    if rng::draw(s, 0) < p.k0_rate.cutoff || pool.len() == 0 {
        (0, rng::advance(s, 1))
    } else {
        (pool[rng::draw_below(s, 1, pool.len()) as int] as nat, rng::advance(s, 2))
    }
}

/// `k` demos rendered one after the other, and the state after them.
pub open spec fn rendered_demos(m: RuleModel, s: u64, k: nat) -> (Seq<DemoText>, u64)
    decreases k,
{
    if k == 0 {
        (Seq::empty(), s)
    } else {
        let (before, t) = rendered_demos(m, s, (k - 1) as nat);
        let (d, after) = (m.demo)(t);
        (before.push(d), after)
    }
}

/// Whether a demo is corrupted from state `s`, the demos after that, and the
/// state after it. Nothing is drawn for an instance without demos.
pub open spec fn corrupted_demos(p: ProtocolModel, m: RuleModel, demos: Seq<DemoText>, s: u64) -> (
    bool,
    Seq<DemoText>,
    u64,
) {
    if demos.len() == 0 {
        (false, demos, s)
    } else if rng::draw(s, 0) < p.corrupt_rate.cutoff {
        let i = rng::draw_below(s, 1, demos.len()) as int;
        let (output, after) = (m.corrupted)(rng::advance(s, 2), demos[i].output);
        (true, demos.update(i, DemoText { input: demos[i].input, output }), after)
    } else {
        (false, demos, rng::advance(s, 1))
    }
}

/// The demo `d`, rendered anew up to `tries` times while its output is
/// `target`; and the state after that.
pub open spec fn resampled(m: RuleModel, d: DemoText, target: Seq<char>, s: u64, tries: nat) -> (
    DemoText,
    u64,
)
    decreases tries,
{
    if d.output == target && tries > 0 {
        let (next, after) = (m.demo)(s);
        resampled(m, next, target, after, (tries - 1) as nat)
    } else {
        (d, s)
    }
}

/// All demos, each rendered anew while its output is `target`.
pub open spec fn excluded(m: RuleModel, demos: Seq<DemoText>, target: Seq<char>, s: u64) -> (
    Seq<DemoText>,
    u64,
)
    decreases demos.len(),
{
    if demos.len() == 0 {
        (demos, s)
    } else {
        let (before, t) = excluded(m, demos.drop_last(), target, s);
        let (d, after) = resampled(m, demos.last(), target, t, RESAMPLE_TRIES as nat);
        (before.push(d), after)
    }
}

/// The class counts of `k` demos, and the state after them: even k splits
/// evenly; for odd k a coin says which side gets one more.
pub open spec fn split_counts(k: nat, s: u64) -> ((nat, nat), u64) {
    if k % 2 == 0 {
        ((k / 2, k / 2), s)
    } else if rng::draw_below(s, 0, 2) == 0 {
        ((k / 2 + 1, k / 2), rng::advance(s, 1))
    } else {
        ((k / 2, k / 2 + 1), rng::advance(s, 1))
    }
}

/// A balancing pass under way: the demos so far, how many of either class are
/// still needed, and the generator state.
pub struct Balancing {
    pub demos: Seq<DemoText>,
    pub need0: nat,
    pub need1: nat,
    pub state: u64,
}

/// The pass with `d` taken as the next demo. It fills a need if it shows a
/// class that is still needed.
pub open spec fn taken(b: Balancing, d: DemoText, c0: Seq<char>, c1: Seq<char>) -> Balancing {
    if d.output == c0 && b.need0 > 0 {
        Balancing { demos: b.demos.push(d), need0: (b.need0 - 1) as nat, ..b }
    } else if d.output == c1 && b.need1 > 0 {
        Balancing { demos: b.demos.push(d), need1: (b.need1 - 1) as nat, ..b }
    } else {
        Balancing { demos: b.demos.push(d), ..b }
    }
}

/// Whether `d` shows a class that is still needed.
pub open spec fn needed(b: Balancing, d: DemoText, c0: Seq<char>, c1: Seq<char>) -> bool {
    (d.output == c0 && b.need0 > 0) || (d.output == c1 && b.need1 > 0)
}

/// The pass with the next demo rendered anew: the first of `tries` renders
/// that shows a needed class; the last one if none does.
pub open spec fn refilled(
    m: RuleModel,
    b: Balancing,
    c0: Seq<char>,
    c1: Seq<char>,
    tries: nat,
) -> Balancing
    decreases tries,
{
    let (d, after) = (m.demo)(b.state);
    let next = Balancing { state: after, ..b };
    if needed(b, d, c0, c1) || tries <= 1 {
        taken(next, d, c0, c1)
    } else {
        refilled(m, next, c0, c1, (tries - 1) as nat)
    }
}

/// The balancing pass over `demos` from the counts and state of `start`: a
/// demo that shows a needed class is kept, any other is rendered anew.
pub open spec fn balancing(
    m: RuleModel,
    demos: Seq<DemoText>,
    c0: Seq<char>,
    c1: Seq<char>,
    start: Balancing,
) -> Balancing
    decreases demos.len(),
{
    if demos.len() == 0 {
        start
    } else {
        let b = balancing(m, demos.drop_last(), c0, c1, start);
        if needed(b, demos.last(), c0, c1) {
            taken(b, demos.last(), c0, c1)
        } else {
            refilled(m, b, c0, c1, RESAMPLE_TRIES as nat)
        }
    }
}

/// The demos repaired to exact coverage of two classes, and the state after
/// that. Single demos, and other numbers of classes, are left as they are.
pub open spec fn balanced_demos(
    m: RuleModel,
    demos: Seq<DemoText>,
    classes: Seq<Seq<char>>,
    s: u64,
) -> (Seq<DemoText>, u64) {
    if demos.len() <= 1 || classes.len() != 2 {
        (demos, s)
    } else {
        let ((need0, need1), after) = split_counts(demos.len(), s);
        let start = Balancing { demos: Seq::empty(), need0, need1, state: after };
        let b = balancing(m, demos, classes[0], classes[1], start);
        (b.demos, b.state)
    }
}

/// The demos under the rule's policy, and the state after that.
pub open spec fn gated(m: RuleModel, demos: Seq<DemoText>, target: Seq<char>, s: u64) -> (
    Seq<DemoText>,
    u64,
) {
    match m.policy {
        PolicyModel::ExcludeAnswer => excluded(m, demos, target, s),
        PolicyModel::Balanced { classes } => balanced_demos(m, demos, classes, s),
    }
}

/// The demos as they stand in a prompt, one per line.
pub open spec fn demo_lines(demos: Seq<DemoText>, sep: Seq<char>) -> Seq<char>
    decreases demos.len(),
{
    if demos.len() == 0 {
        Seq::empty()
    } else {
        demo_lines(demos.drop_last(), sep) + demos.last().input + sep + demos.last().output
            + seq!['\n']
    }
}

/// The line that states the rule, if it is stated.
pub open spec fn header_line(header: Option<Seq<char>>) -> Seq<char> {
    match header {
        Some(h) => h.push('\n'),
        None => Seq::empty(),
    }
}

/// The prompt: header, demos and query, one per line. The query comes last, or
/// first and is then asked for again.
pub open spec fn prompt_text(
    header: Option<Seq<char>>,
    sep: Seq<char>,
    query_first: bool,
    query: Seq<char>,
    demos: Seq<DemoText>,
) -> Seq<char> {
    if query_first {
        header_line(header) + seq!['Q', ' '] + sep + seq!['\n'] + query + sep + seq!['\n']
            + demo_lines(demos, sep) + seq!['A'] + sep + seq!['\n']
    } else {
        header_line(header) + demo_lines(demos, sep) + query + sep + seq!['\n']
    }
}

/// The instance built from state `s`, and the state after it: sample k, pick a
/// separator, render the demos, shuffle them, corrupt one at times, render the
/// query, place it, and put the demos under the rule's policy.
#[verifier::opaque]
pub open spec fn built(
    p: ProtocolModel,
    task: Seq<char>,
    stage: u8,
    track: Track,
    m: RuleModel,
    s: u64,
) -> (InstanceModel, u64) {
    let (k, s1) = sampled_k(p, s);
    let sep = p.seps[rng::draw_below(s1, 0, p.seps.len()) as int];
    let (fresh, s2) = rendered_demos(m, rng::advance(s1, 1), k);
    let mixed = rng::shuffled(fresh, s2);
    let s3 = rng::advance(s2, rng::shuffle_draws(k));
    let (corrupted_demo, dealt, s4) = corrupted_demos(p, m, mixed, s3);
    let (q, s5) = (m.query)(s4);
    let query_first = rng::draw(s5, 0) < CUTOFF_FIFTY && k > 0;
    let (demos, after) = gated(m, dealt, q.target, rng::advance(s5, 1));
    (
        InstanceModel {
            prompt: encode_utf8(prompt_text(m.header, sep, query_first, q.input, demos)),
            target: encode_utf8(q.target),
            task,
            stage,
            track,
            k,
            demos,
            query_input: q.input,
            expected: q.target,
            corrupted_demo,
            query_first,
        },
        after,
    )
}

impl DemoProtocol {
    /// The number of demos of the next instance.
    fn sample_k(&self, rng: &mut HarnessRng) -> (r: usize)
        ensures
            (r as nat, final(rng)@) == sampled_k(self@, old(rng)@),
    {
        let ghost s = rng@;
        proof {
            rng::lemma_advance_adds(s, 1, 1);
            assert(rng::draw(rng::advance(s, 1), 0) == rng::draw(s, 1));
        }
        if rng.prob(self.k0_rate) {
            return 0;
        }
        let mut pool: Vec<usize> = Vec::new();
        let mut i: usize = 0;
        while i < self.k_set.len()
            invariant
                i <= self.k_set@.len(),
                pool@ =~= positives(self.k_set@.take(i as int)),
            decreases self.k_set@.len() - i,
        {
            assert(self.k_set@.take(i + 1).drop_last() =~= self.k_set@.take(i as int));
            if self.k_set[i] > 0 {
                pool.push(self.k_set[i]);
            }
            i = i + 1;
        }
        assert(self.k_set@.take(i as int) =~= self.k_set@);
        if pool.len() == 0 {
            return 0;
        }
        *rng.pick(&pool)
    }

    /// Builds one instance: sample k, resample demos per instance from the
    /// rule, randomize layout, optionally corrupt one demo.
    ///
    /// The policy is enforced AFTER corruption, on the final demos shipped in
    /// the prompt, so its guarantee holds as stated. If the corruption
    /// produced the target (`ExcludeAnswer`) or broke class balance
    /// (`Balanced`), enforcement overwrites that corrupted demo, microscopically
    /// lowering the effective corruption rate in exchange for a hard anti-copy
    /// guarantee. Layout randomization only reorders text, never outputs, so it
    /// cannot undermine the guarantee. All generator use is sequential:
    /// identical states give identical instances.
    pub fn build<R: Rule + ?Sized>(
        &self,
        task: &'static str,
        stage: u8,
        track: Track,
        rule: &R,
        rng: &mut HarnessRng,
    ) -> (r: Instance)
        requires
            self.seps@.len() > 0,
            rule.model().ready,
        ensures
            (r@, final(rng)@) == built(self@, task@, stage, track, rule.model(), old(rng)@),
    {
        proof {
            reveal(built);
        }
        let ghost m = rule.model();
        let k: usize = self.sample_k(rng);
        let ghost s1 = rng@;
        let sep: String = rng.pick(&self.seps).clone();
        assert(super::texts(self.seps@)[rng::draw_below(s1, 0, self.seps@.len()) as int] == sep@);
        let mut demos: Vec<Demo> = render_demos(rule, rng, k);
        let ghost fresh = demos@;
        let ghost s2 = rng@;
        proof {
            lemma_rendered_len(m, rng::advance(s1, 1), k as nat);
            lemma_shuffled_texts(fresh, s2);
        }
        rng.shuffle(&mut demos);
        let ghost s3 = rng@;
        let corrupted_demo: bool = corrupt_one(self.corrupt_rate, rule, rng, &mut demos);
        assert(corrupted_demo == corrupted_demos(self@, m, demo_texts(rng::shuffled(fresh, s2)), s3).0);
        let query: Query = rule.render_query(rng);
        let coin: bool = rng.prob(Rate { cutoff: CUTOFF_FIFTY });
        let query_first: bool = coin && k > 0;
        match rule.demo_policy() {
            DemoPolicy::ExcludeAnswer => {
                exclude_answer(rule, rng, &mut demos, query.target.as_str());
            },
            DemoPolicy::Balanced { classes } => {
                enforce_balanced(rule, rng, &mut demos, &classes);
            },
        }
        let header: Option<String> = rule.oracle_header();
        let prompt: String = lay_out(&header, sep.as_str(), query_first, query.input.as_str(), &demos);
        Instance {
            prompt: crate::text::bytes_of(prompt.as_str()),
            target: crate::text::bytes_of(query.target.as_str()),
            info: InstanceInfo {
                task,
                stage,
                track,
                k,
                demos,
                query_input: query.input,
                expected: query.target,
                corrupted_demo,
                query_first,
            },
        }
    }
}

/// As many demos are rendered as were asked for.
proof fn lemma_rendered_len(m: RuleModel, s: u64, k: nat)
    ensures
        rendered_demos(m, s, k).0.len() == k,
    decreases k,
{
    if k > 0 {
        lemma_rendered_len(m, s, (k - 1) as nat);
    }
}

/// The texts of shuffled demos are the shuffled texts, as many as before.
proof fn lemma_shuffled_texts(demos: Seq<Demo>, s: u64)
    ensures
        rng::shuffled(demo_texts(demos), s) == demo_texts(rng::shuffled(demos, s)),
        rng::shuffled(demos, s).len() == demos.len(),
{
    let n = rng::shuffle_draws(demos.len());
    rng::lemma_shuffled_map(demos, |d: Demo| d@, s, n);
    rng::lemma_shuffled_multiset(demos, s, n);
}

/// `k` demos of `rule`, one after the other.
fn render_demos<R: Rule + ?Sized>(rule: &R, rng: &mut HarnessRng, k: usize) -> (r: Vec<Demo>)
    requires
        rule.model().ready,
    ensures
        (demo_texts(r@), final(rng)@) == rendered_demos(rule.model(), old(rng)@, k as nat),
{
    let mut out: Vec<Demo> = Vec::new();
    let ghost s = rng@;
    assert(demo_texts(out@) =~= Seq::<DemoText>::empty());
    let mut i: usize = 0;
    while i < k
        invariant
            i <= k,
            rule.model().ready,
            (demo_texts(out@), rng@) == rendered_demos(rule.model(), s, i as nat),
        decreases k - i,
    {
        let ghost before = out@;
        let d: Demo = rule.render_demo(rng);
        out.push(d);
        assert(demo_texts(out@) =~= demo_texts(before).push(d@));
        i = i + 1;
    }
    out
}

/// Corrupts one demo at times; whether it did.
fn corrupt_one<R: Rule + ?Sized>(
    rate: Rate,
    rule: &R,
    rng: &mut HarnessRng,
    demos: &mut Vec<Demo>,
) -> (r: bool)
    ensures
        forall|p: ProtocolModel|
            p.corrupt_rate == rate ==> (r, demo_texts(final(demos)@), final(rng)@)
                == #[trigger] corrupted_demos(p, rule.model(), demo_texts(old(demos)@), old(rng)@),
        final(demos)@.len() == old(demos)@.len(),
{
    let ghost s = rng@;
    let ghost before = demos@;
    proof {
        rng::lemma_advance_adds(s, 1, 1);
        assert(rng::draw(rng::advance(s, 1), 0) == rng::draw(s, 1));
    }
    if demos.len() == 0 {
        return false;
    }
    if !rng.prob(rate) {
        return false;
    }
    let i: usize = rng.below(demos.len());
    let input: String = demos[i].input.clone();
    let output: String = rule.corrupt(rng, demos[i].output.as_str());
    demos.set(i, Demo { input, output });
    assert(demo_texts(demos@) =~= demo_texts(before).update(
        i as int,
        DemoText { input: before[i as int].input@, output: output@ },
    ));
    true
}

/// Renders anew, in place, every demo whose output is `target`.
fn exclude_answer<R: Rule + ?Sized>(rule: &R, rng: &mut HarnessRng, demos: &mut Vec<Demo>, target: &str)
    requires
        rule.model().ready,
    ensures
        (demo_texts(final(demos)@), final(rng)@) == excluded(
            rule.model(),
            demo_texts(old(demos)@),
            target@,
            old(rng)@,
        ),
{
    let ghost m = rule.model();
    let ghost all = demo_texts(demos@);
    let ghost s = rng@;
    let n: usize = demos.len();
    let mut i: usize = 0;
    assert(demo_texts(demos@).take(0) =~= all.take(0));
    while i < n
        invariant
            i <= n == demos@.len() == all.len(),
            m == rule.model(),
            m.ready,
            (demo_texts(demos@).take(i as int), rng@) == excluded(m, all.take(i as int), target@, s),
            forall|j: int| i <= j < n ==> (#[trigger] demos@[j])@ == all[j],
        decreases n - i,
    {
        let ghost before = demos@;
        let ghost t = rng@;
        let mut d: Demo = demos[i].clone();
        let mut tries: u64 = 0;
        while tries < RESAMPLE_TRIES && crate::text::same(d.output.as_str(), target)
            invariant
                tries <= RESAMPLE_TRIES,
                m == rule.model(),
                m.ready,
                resampled(m, all[i as int], target@, t, RESAMPLE_TRIES as nat) == resampled(
                    m,
                    d@,
                    target@,
                    rng@,
                    (RESAMPLE_TRIES - tries) as nat,
                ),
            decreases RESAMPLE_TRIES - tries,
        {
            d = rule.render_demo(rng);
            tries = tries + 1;
        }
        demos.set(i, d);
        proof {
            assert(all.take(i + 1).drop_last() =~= all.take(i as int));
            assert(demo_texts(demos@).take(i + 1) =~= demo_texts(before).take(i as int).push(d@));
        }
        i = i + 1;
    }
    assert(all.take(n as int) =~= all);
    assert(demo_texts(demos@).take(n as int) =~= demo_texts(demos@));
}

/// Desired per-class demo counts for [`DemoPolicy::Balanced`]: even k splits
/// evenly; odd k gives one side `ceil(k/2)`, picking the side deterministically
/// from `rng` so instances alternate which class holds the majority. k <= 1 is
/// left to the caller (k = 0 is vacuous, k = 1 stays as sampled).
pub fn balanced_counts(k: usize, rng: &mut HarnessRng) -> (r: (usize, usize))
    ensures
        ((r.0 as nat, r.1 as nat), final(rng)@) == split_counts(k as nat, old(rng)@),
        r.0 + r.1 == k,
        -1 <= r.0 - r.1 <= 1,
{
    let base: usize = k / 2;
    if k % 2 == 0 {
        (base, base)
    } else if rng.below(2) == 0 {
        (base + 1, base)
    } else {
        (base, base + 1)
    }
}

/// Repairs `demos` in place to exact `classes` coverage. Demos already showing
/// a still-needed class are kept (positions stay shuffled); over-quota or
/// non-class demos (e.g. a corrupted output) are resampled via fresh
/// regime-correct `render_demo` calls until they fill a remaining need.
/// Bounded tries per slot, keep-last on exhaustion: never loops forever.
pub fn enforce_balanced<R: Rule + ?Sized>(
    rule: &R,
    rng: &mut HarnessRng,
    demos: &mut Vec<Demo>,
    classes: &Vec<String>,
)
    requires
        rule.model().ready,
    ensures
        (demo_texts(final(demos)@), final(rng)@) == balanced_demos(
            rule.model(),
            demo_texts(old(demos)@),
            super::texts(classes@),
            old(rng)@,
        ),
{
    let k: usize = demos.len();
    if k <= 1 || classes.len() != 2 {
        return;
    }
    let ghost m = rule.model();
    let ghost all = demo_texts(demos@);
    let ghost c0 = classes@[0]@;
    let ghost c1 = classes@[1]@;
    assert(super::texts(classes@)[0] == c0 && super::texts(classes@)[1] == c1);
    let ghost s = rng@;
    let (mut need0, mut need1) = balanced_counts(k, rng);
    let ghost start = Balancing {
        demos: Seq::empty(),
        need0: need0 as nat,
        need1: need1 as nat,
        state: rng@,
    };
    let mut i: usize = 0;
    assert(demo_texts(demos@).take(0) =~= Seq::<DemoText>::empty());
    assert(all.take(0) =~= Seq::<DemoText>::empty());
    while i < k
        invariant
            i <= k == demos@.len() == all.len(),
            m == rule.model(),
            m.ready,
            classes@.len() == 2,
            c0 == classes@[0]@,
            c1 == classes@[1]@,
            balancing(m, all.take(i as int), c0, c1, start) == (Balancing {
                demos: demo_texts(demos@).take(i as int),
                need0: need0 as nat,
                need1: need1 as nat,
                state: rng@,
            }),
            forall|j: int| i <= j < k ==> (#[trigger] demos@[j])@ == all[j],
        decreases k - i,
    {
        let ghost before = demos@;
        let ghost b = balancing(m, all.take(i as int), c0, c1, start);
        assert(all.take(i + 1).drop_last() =~= all.take(i as int));
        let shows0: bool = crate::text::same(demos[i].output.as_str(), classes[0].as_str());
        let shows1: bool = crate::text::same(demos[i].output.as_str(), classes[1].as_str());
        if shows0 && need0 > 0 {
            need0 = need0 - 1;
            assert(demo_texts(demos@).take(i + 1) =~= demo_texts(before).take(i as int).push(
                all[i as int],
            ));
        } else if shows1 && need1 > 0 {
            need1 = need1 - 1;
            assert(demo_texts(demos@).take(i + 1) =~= demo_texts(before).take(i as int).push(
                all[i as int],
            ));
        } else {
            let mut d: Demo = rule.render_demo(rng);
            let mut tries: u64 = 1;
            let mut wants0: bool = need0 > 0 && crate::text::same(
                d.output.as_str(),
                classes[0].as_str(),
            );
            let mut wants1: bool = need1 > 0 && crate::text::same(
                d.output.as_str(),
                classes[1].as_str(),
            );
            let ghost mut at = b.state;
            while tries < RESAMPLE_TRIES && !wants0 && !wants1
                invariant
                    1 <= tries <= RESAMPLE_TRIES,
                    m == rule.model(),
                    m.ready,
                    classes@.len() == 2,
                    c0 == classes@[0]@,
                    c1 == classes@[1]@,
                    b.need0 == need0,
                    b.need1 == need1,
                    wants0 == (d@.output == c0 && need0 > 0),
                    wants1 == (d@.output == c1 && need1 > 0),
                    (m.demo)(at) == (d@, rng@),
                    refilled(m, b, c0, c1, RESAMPLE_TRIES as nat) == refilled(
                        m,
                        (Balancing { state: at, ..b }),
                        c0,
                        c1,
                        (RESAMPLE_TRIES - tries + 1) as nat,
                    ),
                decreases RESAMPLE_TRIES - tries,
            {
                proof {
                    at = rng@;
                }
                d = rule.render_demo(rng);
                tries = tries + 1;
                wants0 = need0 > 0 && crate::text::same(d.output.as_str(), classes[0].as_str());
                wants1 = need1 > 0 && crate::text::same(d.output.as_str(), classes[1].as_str());
            }
            if wants0 {
                need0 = need0 - 1;
            } else if wants1 {
                need1 = need1 - 1;
            }
            demos.set(i, d);
            assert(demo_texts(demos@).take(i + 1) =~= demo_texts(before).take(i as int).push(d@));
        }
        i = i + 1;
    }
    assert(all.take(k as int) =~= all);
    assert(demo_texts(demos@).take(k as int) =~= demo_texts(demos@));
}

/// The text of a prompt.
fn lay_out(
    header: &Option<String>,
    sep: &str,
    query_first: bool,
    query: &str,
    demos: &Vec<Demo>,
) -> (r: String)
    ensures
        r@ == prompt_text(
            crate::text::text_of(*header),
            sep@,
            query_first,
            query@,
            demo_texts(demos@),
        ),
{
    let mut prompt: String = String::new();
    // Oracle header first (if the rule states itself explicitly): part
    // of the unscored prompt context, never of the target.
    if let Some(h) = header {
        prompt.append(h.as_str());
        prompt.push('\n');
    }
    let ghost opening = header_line(
        crate::text::text_of(*header),
    );
    assert(prompt@ =~= opening);
    if query_first {
        prompt.push('Q');
        prompt.push(' ');
        prompt.append(sep);
        prompt.push('\n');
        prompt.append(query);
        prompt.append(sep);
        prompt.push('\n');
    }
    let ghost head = prompt@;
    let ghost lines = demo_texts(demos@);
    let mut i: usize = 0;
    assert(lines.take(0) =~= Seq::<DemoText>::empty());
    while i < demos.len()
        invariant
            i <= demos@.len(),
            lines == demo_texts(demos@),
            prompt@ =~= head + demo_lines(lines.take(i as int), sep@),
        decreases demos@.len() - i,
    {
        assert(lines.take(i + 1).drop_last() =~= lines.take(i as int));
        prompt.append(demos[i].input.as_str());
        prompt.append(sep);
        prompt.append(demos[i].output.as_str());
        prompt.push('\n');
        i = i + 1;
    }
    assert(lines.take(i as int) =~= lines);
    if !query_first {
        prompt.append(query);
        prompt.append(sep);
        prompt.push('\n');
    } else {
        prompt.push('A');
        prompt.append(sep);
        prompt.push('\n');
    }
    assert(prompt@ =~= prompt_text(
        crate::text::text_of(*header),
        sep@,
        query_first,
        query@,
        lines,
    ));
    prompt
}

/// A share of outputs: `hits` of `total`.
#[derive(Debug, Clone, Copy, PartialEq, Eq, Structural)]
pub struct CopyRate {
    pub hits: usize,
    pub total: usize,
}

/// Whether some demo shows exactly `output`, as a whole. [`copy_rate`] asks for
/// less: that it occurs in some demo output.
///
/// [`copy_rate`]: DemoProtocol::copy_rate
pub open spec fn shown(demos: Seq<DemoText>, output: Seq<char>) -> bool {
    exists|i: int| 0 <= i < demos.len() && (#[trigger] demos[i]).output == output
}

/// Whether `part` stands at position `p` of `text`.
pub open spec fn stands_at(text: Seq<char>, part: Seq<char>, p: int) -> bool {
    0 <= p && p + part.len() <= text.len() && text.subrange(p, p + part.len()) == part
}

/// Whether `output` is a substring of some demo output.
pub open spec fn occurs(demos: Seq<DemoText>, output: Seq<char>) -> bool {
    exists|i: int, p: int|
        0 <= i < demos.len() && #[trigger] stands_at(demos[i].output, output, p)
}

/// How many of `outputs` are substrings of some demo output.
pub open spec fn copies(demos: Seq<DemoText>, outputs: Seq<&str>) -> nat
    decreases outputs.len(),
{
    if outputs.len() == 0 {
        0
    } else {
        copies(demos, outputs.drop_last()) + if occurs(demos, outputs.last()@) {
            1nat
        } else {
            0nat
        }
    }
}

/// What a demo shows as a whole occurs in it; and where there is a demo at all,
/// the empty output does.
pub proof fn lemma_shown_occurs(demos: Seq<DemoText>, output: Seq<char>)
    ensures
        shown(demos, output) ==> occurs(demos, output),
        demos.len() > 0 ==> occurs(demos, Seq::empty()),
{
    if shown(demos, output) {
        let i = choose|i: int| 0 <= i < demos.len() && (#[trigger] demos[i]).output == output;
        assert(output.subrange(0, output.len() as int) =~= output);
        assert(stands_at(demos[i].output, output, 0));
    }
    if demos.len() > 0 {
        let nothing = Seq::<char>::empty();
        assert(demos[0].output.subrange(0, 0) =~= nothing);
        assert(stands_at(demos[0].output, nothing, 0));
    }
}

/// Whether some demo shows exactly `output`, as a whole.
pub fn shows(demos: &[Demo], output: &str) -> (r: bool)
    ensures
        r == shown(demo_texts(demos@), output@),
{
    let mut i: usize = 0;
    while i < demos.len()
        invariant
            i <= demos@.len(),
            forall|j: int| 0 <= j < i ==> (#[trigger] demo_texts(demos@)[j]).output != output@,
        decreases demos@.len() - i,
    {
        if crate::text::same(demos[i].output.as_str(), output) {
            assert(demo_texts(demos@)[i as int].output == output@);
            return true;
        }
        i = i + 1;
    }
    false
}

/// Whether `part` stands at position `p` of `text`.
fn stands(text: &[char], part: &[char], p: usize) -> (r: bool)
    requires
        p + part@.len() <= text@.len(),
    ensures
        r == stands_at(text@, part@, p as int),
{
    let ghost here = text@.subrange(p as int, p + part@.len());
    let total: usize = text.len();
    let mut k: usize = 0;
    while k < part.len()
        invariant
            k <= part@.len(),
            p + part@.len() <= text@.len() == total,
            here == text@.subrange(p as int, p + part@.len()),
            forall|j: int| 0 <= j < k ==> here[j] == part@[j],
        decreases part@.len() - k,
    {
        if text[p + k] != part[k] {
            assert(here[k as int] != part@[k as int]);
            return false;
        }
        k = k + 1;
    }
    assert(here =~= part@);
    true
}

/// Whether `part` stands anywhere in `text`.
fn holds(text: &[char], part: &[char]) -> (r: bool)
    ensures
        r == exists|p: int| #[trigger] stands_at(text@, part@, p),
{
    if part.len() > text.len() {
        return false;
    }
    let last: usize = text.len() - part.len();
    let mut p: usize = 0;
    loop
        invariant
            p <= last,
            last == text@.len() - part@.len(),
            forall|q: int| 0 <= q < p ==> !#[trigger] stands_at(text@, part@, q),
        decreases last - p,
    {
        if stands(text, part, p) {
            return true;
        }
        if p == last {
            return false;
        }
        p = p + 1;
    }
}

/// Whether `output` is a substring of some demo output.
pub fn occurs_in(demos: &[Demo], output: &str) -> (r: bool)
    ensures
        r == occurs(demo_texts(demos@), output@),
{
    let part: Vec<char> = crate::text::chars_of(output);
    let ghost texts = demo_texts(demos@);
    let mut i: usize = 0;
    while i < demos.len()
        invariant
            i <= demos@.len(),
            part@ == output@,
            texts == demo_texts(demos@),
            forall|j: int, p: int|
                0 <= j < i ==> !#[trigger] stands_at(texts[j].output, output@, p),
        decreases demos@.len() - i,
    {
        let text: Vec<char> = crate::text::chars_of(demos[i].output.as_str());
        assert(texts[i as int].output == text@);
        if holds(&text, &part) {
            proof {
                let p = choose|p: int| #[trigger] stands_at(text@, part@, p);
                assert(stands_at(texts[i as int].output, output@, p));
            }
            return true;
        }
        i = i + 1;
    }
    false
}

impl DemoProtocol {
    /// Copy-rate probe: the share of model outputs that are exact substrings of
    /// demo outputs. High copy-rate + high accuracy = shortcut, not induction.
    pub fn copy_rate(demos: &[Demo], outputs: &[&str]) -> (r: CopyRate)
        ensures
            r.hits == copies(demo_texts(demos@), outputs@),
            r.total == outputs@.len(),
            r.hits <= r.total,
    {
        let mut hits: usize = 0;
        let mut i: usize = 0;
        while i < outputs.len()
            invariant
                i <= outputs@.len(),
                hits <= i,
                hits == copies(demo_texts(demos@), outputs@.take(i as int)),
            decreases outputs@.len() - i,
        {
            assert(outputs@.take(i + 1).drop_last() =~= outputs@.take(i as int));
            if occurs_in(demos, outputs[i]) {
                hits = hits + 1;
            }
            i = i + 1;
        }
        assert(outputs@.take(i as int) =~= outputs@);
        CopyRate { hits, total: outputs.len() }
    }
}

/// The positive entries are entries, and positive.
proof fn lemma_positives(ks: Seq<usize>, i: int)
    requires
        0 <= i < positives(ks).len(),
    ensures
        positives(ks)[i] > 0,
        ks.contains(positives(ks)[i]),
    decreases ks.len(),
{
    let front = ks.drop_last();
    if i < positives(front).len() {
        lemma_positives(front, i);
        let j = choose|j: int| 0 <= j < front.len() && front[j] == positives(front)[i];
        assert(ks[j] == positives(ks)[i]);
    } else {
        assert(ks[ks.len() - 1] == positives(ks)[i]);
    }
}

/// Enforcing the policy keeps the number of demos.
proof fn lemma_gated_len(m: RuleModel, demos: Seq<DemoText>, target: Seq<char>, s: u64)
    ensures
        gated(m, demos, target, s).0.len() == demos.len(),
{
    match m.policy {
        PolicyModel::ExcludeAnswer => {
            lemma_excluded_len(m, demos, target, s);
        },
        PolicyModel::Balanced { classes } => {
            if demos.len() > 1 && classes.len() == 2 {
                let ((need0, need1), after) = split_counts(demos.len(), s);
                let start = Balancing { demos: Seq::empty(), need0, need1, state: after };
                lemma_balancing_len(m, demos, classes[0], classes[1], start);
            }
        },
    }
}

proof fn lemma_excluded_len(m: RuleModel, demos: Seq<DemoText>, target: Seq<char>, s: u64)
    ensures
        excluded(m, demos, target, s).0.len() == demos.len(),
    decreases demos.len(),
{
    if demos.len() > 0 {
        lemma_excluded_len(m, demos.drop_last(), target, s);
    }
}

proof fn lemma_refilled_len(m: RuleModel, b: Balancing, c0: Seq<char>, c1: Seq<char>, tries: nat)
    ensures
        refilled(m, b, c0, c1, tries).demos.len() == b.demos.len() + 1,
    decreases tries,
{
    let (d, after) = (m.demo)(b.state);
    if !needed(b, d, c0, c1) && tries > 1 {
        lemma_refilled_len(m, Balancing { state: after, ..b }, c0, c1, (tries - 1) as nat);
    }
}

proof fn lemma_balancing_len(
    m: RuleModel,
    demos: Seq<DemoText>,
    c0: Seq<char>,
    c1: Seq<char>,
    start: Balancing,
)
    ensures
        balancing(m, demos, c0, c1, start).demos.len() == start.demos.len() + demos.len(),
    decreases demos.len(),
{
    if demos.len() > 0 {
        lemma_balancing_len(m, demos.drop_last(), c0, c1, start);
        let b = balancing(m, demos.drop_last(), c0, c1, start);
        lemma_refilled_len(m, b, c0, c1, RESAMPLE_TRIES as nat);
    }
}

/// Every instance: k is zero or a positive entry of the protocol's set, as
/// many demos ship as k says, an instance without demos is neither corrupted
/// nor asked twice, the target is the expected answer's bytes, and the prompt
/// lays the metadata out with a separator of the pool.
pub proof fn lemma_built_shape(
    p: ProtocolModel,
    task: Seq<char>,
    stage: u8,
    track: Track,
    m: RuleModel,
    s: u64,
)
    requires
        p.seps.len() > 0,
    ensures
        ({
            let x = built(p, task, stage, track, m, s).0;
            &&& x.demos.len() == x.k
            &&& x.k > 0 ==> exists|i: int| 0 <= i < p.k_set.len() && #[trigger] p.k_set[i] == x.k
            &&& x.k == 0 ==> !x.corrupted_demo && !x.query_first
            &&& x.target == encode_utf8(x.expected)
            &&& exists|j: int|
                0 <= j < p.seps.len() && x.prompt == encode_utf8(
                    prompt_text(
                        m.header,
                        #[trigger] p.seps[j],
                        x.query_first,
                        x.query_input,
                        x.demos,
                    ),
                )
        }),
{
    reveal(built);
    let (k, s1) = sampled_k(p, s);
    let j = rng::draw_below(s1, 0, p.seps.len()) as int;
    assert(0 <= j < p.seps.len());
    assert(p.seps[j] == p.seps[j]);
    let (fresh, s2) = rendered_demos(m, rng::advance(s1, 1), k);
    lemma_rendered_len(m, rng::advance(s1, 1), k);
    rng::lemma_shuffled_multiset(fresh, s2, rng::shuffle_draws(k));
    let mixed = rng::shuffled(fresh, s2);
    let s3 = rng::advance(s2, rng::shuffle_draws(k));
    let (_, dealt, s4) = corrupted_demos(p, m, mixed, s3);
    let (q, s5) = (m.query)(s4);
    lemma_gated_len(m, dealt, q.target, rng::advance(s5, 1));
    if k > 0 {
        let pool = positives(p.k_set);
        let i = rng::draw_below(s, 1, pool.len()) as int;
        lemma_positives(p.k_set, i);
        let at = choose|at: int| 0 <= at < p.k_set.len() && p.k_set[at] == pool[i];
        assert(p.k_set[at] == k);
    }
}

/// A rule that states itself does so in the first line of the prompt.
pub proof fn lemma_header_first(
    header: Seq<char>,
    sep: Seq<char>,
    query_first: bool,
    query: Seq<char>,
    demos: Seq<DemoText>,
)
    ensures
        prompt_text(Some(header), sep, query_first, query, demos).take(header.len() as int + 1)
            == header.push('\n'),
{
    let text = prompt_text(Some(header), sep, query_first, query, demos);
    assert(text.take(header.len() as int + 1) =~= header.push('\n'));
}

/// Whether [`RESAMPLE_TRIES`] renders in a row from state `s` all show
/// `target`.
pub open spec fn stuck(m: RuleModel, target: Seq<char>, s: u64) -> bool {
    forall|i: int|
        0 <= i < RESAMPLE_TRIES ==> (#[trigger] rendered_demos(
            m,
            s,
            RESAMPLE_TRIES as nat,
        ).0[i]).output == target
}

/// Rendering `k + 1` demos is rendering one and then `k` more.
proof fn lemma_rendered_front(m: RuleModel, s: u64, k: nat)
    ensures
        rendered_demos(m, s, k + 1).0 == seq![(m.demo)(s).0] + rendered_demos(
            m,
            (m.demo)(s).1,
            k,
        ).0,
        rendered_demos(m, s, k + 1).1 == rendered_demos(m, (m.demo)(s).1, k).1,
    decreases k,
{
    if k == 0 {
        assert(rendered_demos(m, s, 0).0 =~= Seq::<DemoText>::empty());
        assert(rendered_demos(m, s, 1) == (seq![(m.demo)(s).0], (m.demo)(s).1));
        assert(seq![(m.demo)(s).0] + rendered_demos(m, (m.demo)(s).1, 0).0 =~= seq![
            (m.demo)(s).0,
        ]);
    } else {
        lemma_rendered_front(m, s, (k - 1) as nat);
        let rest = rendered_demos(m, (m.demo)(s).1, k).0;
        assert(rendered_demos(m, s, k + 1).0 =~= seq![(m.demo)(s).0] + rest);
    }
}

/// A resampled demo shows the target exactly if it did before and so do all
/// the renders that it is allowed.
proof fn lemma_resampled(m: RuleModel, d: DemoText, target: Seq<char>, s: u64, tries: nat)
    ensures
        resampled(m, d, target, s, tries).0.output == target <==> d.output == target && forall|
            i: int,
        |
            0 <= i < tries ==> (#[trigger] rendered_demos(m, s, tries).0[i]).output == target,
    decreases tries,
{
    if d.output == target && tries > 0 {
        let (next, after) = (m.demo)(s);
        let left = (tries - 1) as nat;
        let all = rendered_demos(m, s, tries).0;
        let rest = rendered_demos(m, after, left).0;
        lemma_resampled(m, next, target, after, left);
        lemma_rendered_front(m, s, left);
        lemma_rendered_len(m, after, left);
        assert(all[0] == next);
        assert forall|i: int| 0 <= i < left implies #[trigger] rest[i] == all[i + 1] by {}
        if resampled(m, d, target, s, tries).0.output == target {
            assert forall|i: int| 0 <= i < tries implies (#[trigger] all[i]).output == target by {
                if i > 0 {
                    assert(all[i] == rest[i - 1]);
                }
            }
        }
        if forall|i: int| 0 <= i < tries ==> (#[trigger] all[i]).output == target {
            assert forall|i: int| 0 <= i < left implies (#[trigger] rest[i]).output == target by {
                assert(all[i + 1].output == target);
            }
        }
    }
}

/// After the exclusion pass a demo shows the target exactly if it did before
/// and the rule was stuck on it when its turn came.
pub proof fn lemma_exclusion(m: RuleModel, demos: Seq<DemoText>, target: Seq<char>, s: u64, i: int)
    requires
        0 <= i < demos.len(),
    ensures
        excluded(m, demos, target, s).0.len() == demos.len(),
        excluded(m, demos, target, s).0[i].output == target <==> demos[i].output == target
            && stuck(m, target, excluded(m, demos.take(i), target, s).1),
    decreases demos.len(),
{
    let front = demos.drop_last();
    let (before, t) = excluded(m, front, target, s);
    lemma_excluded_len(m, front, target, s);
    if i < front.len() {
        lemma_exclusion(m, front, target, s, i);
        assert(front.take(i) =~= demos.take(i));
    } else {
        lemma_resampled(m, demos.last(), target, t, RESAMPLE_TRIES as nat);
        assert(demos.take(i) =~= front);
    }
}

/// The demos of the instance built from state `s` before its policy is
/// enforced, its query, and the state at that point.
pub open spec fn dealt(p: ProtocolModel, m: RuleModel, s: u64) -> (Seq<DemoText>, QueryText, u64) {
    let (k, s1) = sampled_k(p, s);
    let (fresh, s2) = rendered_demos(m, rng::advance(s1, 1), k);
    let mixed = rng::shuffled(fresh, s2);
    let s3 = rng::advance(s2, rng::shuffle_draws(k));
    let (_, demos, s4) = corrupted_demos(p, m, mixed, s3);
    let (q, s5) = (m.query)(s4);
    (demos, q, rng::advance(s5, 1))
}

/// The demos of an instance are those that were dealt, under its rule's policy.
proof fn lemma_built_gates(
    p: ProtocolModel,
    task: Seq<char>,
    stage: u8,
    track: Track,
    m: RuleModel,
    s: u64,
)
    ensures
        ({
            let x = built(p, task, stage, track, m, s).0;
            let (demos, q, t) = dealt(p, m, s);
            &&& x.demos == gated(m, demos, q.target, t).0
            &&& x.expected == q.target
            &&& x.demos.len() == demos.len()
        }),
{
    reveal(built);
    let (demos, q, t) = dealt(p, m, s);
    lemma_gated_len(m, demos, q.target, t);
}

/// A demo of an instance under [`DemoPolicy::ExcludeAnswer`] shows its answer
/// only if it was dealt that way and the rule was stuck on the answer when its
/// turn came.
pub proof fn lemma_built_excludes_answer(
    p: ProtocolModel,
    task: Seq<char>,
    stage: u8,
    track: Track,
    m: RuleModel,
    s: u64,
    i: int,
)
    requires
        m.policy == PolicyModel::ExcludeAnswer,
        0 <= i < built(p, task, stage, track, m, s).0.demos.len(),
    ensures
        ({
            let x = built(p, task, stage, track, m, s).0;
            let (demos, _, t) = dealt(p, m, s);
            x.demos[i].output == x.expected <==> demos[i].output == x.expected && stuck(
                m,
                x.expected,
                excluded(m, demos.take(i), x.expected, t).1,
            )
        }),
{
    lemma_built_gates(p, task, stage, track, m, s);
    let (demos, q, t) = dealt(p, m, s);
    lemma_exclusion(m, demos, q.target, t, i);
}

/// Whether all `demos` but the one at `but` are of a kind.
spec fn of_kind_but(demos: Seq<DemoText>, kind: spec_fn(DemoText) -> bool, but: int) -> bool {
    forall|i: int| 0 <= i < demos.len() && i != but ==> kind(#[trigger] demos[i])
}

/// Whether all demos that a rule renders are of a kind.
spec fn renders_kind(m: RuleModel, kind: spec_fn(DemoText) -> bool) -> bool {
    forall|t: u64| kind((#[trigger] (m.demo)(t)).0)
}

/// Whether a demo stays of a kind when it is corrupted.
spec fn corruption_keeps(m: RuleModel, kind: spec_fn(DemoText) -> bool) -> bool {
    forall|t: u64, d: DemoText|
        kind(d) ==> kind(
            DemoText { input: d.input, output: (#[trigger] (m.corrupted)(t, d.output)).0 },
        )
}

proof fn lemma_rendered_of_kind(m: RuleModel, s: u64, k: nat, kind: spec_fn(DemoText) -> bool)
    requires
        renders_kind(m, kind),
    ensures
        of_kind_but(rendered_demos(m, s, k).0, kind, -1),
    decreases k,
{
    if k > 0 {
        let (before, t) = rendered_demos(m, s, (k - 1) as nat);
        lemma_rendered_of_kind(m, s, (k - 1) as nat, kind);
        assert(kind((m.demo)(t).0));
    }
}

proof fn lemma_shuffled_of_kind(demos: Seq<DemoText>, s: u64, kind: spec_fn(DemoText) -> bool)
    requires
        of_kind_but(demos, kind, -1),
    ensures
        of_kind_but(rng::shuffled(demos, s), kind, -1),
{
    broadcast use vstd::seq_lib::group_to_multiset_ensures;

    let mixed = rng::shuffled(demos, s);
    rng::lemma_shuffled_multiset(demos, s, rng::shuffle_draws(demos.len()));
    assert forall|i: int| 0 <= i < mixed.len() implies kind(#[trigger] mixed[i]) by {
        assert(mixed.to_multiset().count(mixed[i]) > 0);
        assert(demos.contains(mixed[i]));
        let j = choose|j: int| 0 <= j < demos.len() && demos[j] == mixed[i];
        assert(kind(demos[j]));
    }
}

/// Which of the demos dealt from state `s` is corrupted; -1 if none is.
spec fn corrupted_at(p: ProtocolModel, m: RuleModel, s: u64) -> int {
    let (k, s1) = sampled_k(p, s);
    let (fresh, s2) = rendered_demos(m, rng::advance(s1, 1), k);
    let mixed = rng::shuffled(fresh, s2);
    let s3 = rng::advance(s2, rng::shuffle_draws(k));
    if corrupted_demos(p, m, mixed, s3).0 {
        rng::draw_below(s3, 1, mixed.len()) as int
    } else {
        -1
    }
}

/// The demos that are dealt are of the kind that the rule renders, but for the
/// corrupted one; that one too, if it stays so when it is corrupted.
proof fn lemma_dealt_of_kind(
    p: ProtocolModel,
    m: RuleModel,
    s: u64,
    kind: spec_fn(DemoText) -> bool,
)
    requires
        renders_kind(m, kind),
    ensures
        of_kind_but(dealt(p, m, s).0, kind, corrupted_at(p, m, s)),
        corruption_keeps(m, kind) ==> of_kind_but(dealt(p, m, s).0, kind, -1),
{
    let (k, s1) = sampled_k(p, s);
    let (fresh, s2) = rendered_demos(m, rng::advance(s1, 1), k);
    let mixed = rng::shuffled(fresh, s2);
    let s3 = rng::advance(s2, rng::shuffle_draws(k));
    lemma_rendered_of_kind(m, rng::advance(s1, 1), k, kind);
    lemma_shuffled_of_kind(fresh, s2, kind);
    if corrupted_demos(p, m, mixed, s3).0 {
        let d = mixed[rng::draw_below(s3, 1, mixed.len()) as int];
        let output = (m.corrupted)(rng::advance(s3, 2), d.output).0;
        assert(corruption_keeps(m, kind) ==> kind(DemoText { input: d.input, output }));
    }
}

proof fn lemma_resampled_of_kind(
    m: RuleModel,
    d: DemoText,
    target: Seq<char>,
    s: u64,
    tries: nat,
    kind: spec_fn(DemoText) -> bool,
)
    requires
        kind(d),
        renders_kind(m, kind),
    ensures
        kind(resampled(m, d, target, s, tries).0),
    decreases tries,
{
    if d.output == target && tries > 0 {
        let (next, after) = (m.demo)(s);
        lemma_resampled_of_kind(m, next, target, after, (tries - 1) as nat, kind);
    }
}

proof fn lemma_excluded_of_kind(
    m: RuleModel,
    demos: Seq<DemoText>,
    target: Seq<char>,
    s: u64,
    kind: spec_fn(DemoText) -> bool,
    but: int,
)
    requires
        of_kind_but(demos, kind, but),
        renders_kind(m, kind),
    ensures
        of_kind_but(excluded(m, demos, target, s).0, kind, but),
    decreases demos.len(),
{
    if demos.len() > 0 {
        let front = demos.drop_last();
        assert forall|i: int| 0 <= i < front.len() && i != but implies kind(
            #[trigger] front[i],
        ) by {
            assert(front[i] == demos[i]);
        }
        lemma_excluded_of_kind(m, front, target, s, kind, but);
        lemma_excluded_len(m, front, target, s);
        let (before, t) = excluded(m, front, target, s);
        if but != demos.len() - 1 {
            assert(kind(demos[demos.len() - 1]));
            lemma_resampled_of_kind(m, demos.last(), target, t, RESAMPLE_TRIES as nat, kind);
        }
    }
}

proof fn lemma_refilled_of_kind(
    m: RuleModel,
    b: Balancing,
    c0: Seq<char>,
    c1: Seq<char>,
    tries: nat,
    kind: spec_fn(DemoText) -> bool,
    but: int,
)
    requires
        of_kind_but(b.demos, kind, but),
        renders_kind(m, kind),
    ensures
        of_kind_but(refilled(m, b, c0, c1, tries).demos, kind, but),
    decreases tries,
{
    let (d, after) = (m.demo)(b.state);
    assert(kind(d));
    if !needed(b, d, c0, c1) && tries > 1 {
        let next = Balancing { state: after, ..b };
        lemma_refilled_of_kind(m, next, c0, c1, (tries - 1) as nat, kind, but);
    }
}

proof fn lemma_balancing_of_kind(
    m: RuleModel,
    demos: Seq<DemoText>,
    c0: Seq<char>,
    c1: Seq<char>,
    start: Balancing,
    kind: spec_fn(DemoText) -> bool,
    but: int,
)
    requires
        start.demos.len() == 0,
        of_kind_but(demos, kind, but),
        renders_kind(m, kind),
    ensures
        of_kind_but(balancing(m, demos, c0, c1, start).demos, kind, but),
    decreases demos.len(),
{
    if demos.len() > 0 {
        let front = demos.drop_last();
        assert forall|i: int| 0 <= i < front.len() && i != but implies kind(
            #[trigger] front[i],
        ) by {
            assert(front[i] == demos[i]);
        }
        lemma_balancing_of_kind(m, front, c0, c1, start, kind, but);
        lemma_balancing_len(m, front, c0, c1, start);
        assert(but != demos.len() - 1 ==> kind(demos[demos.len() - 1]));
        let b = balancing(m, front, c0, c1, start);
        lemma_refilled_of_kind(m, b, c0, c1, RESAMPLE_TRIES as nat, kind, but);
    }
}

/// The demos of an instance are of the kind that its rule renders, but for the
/// corrupted one; that one too, if it stays so when it is corrupted.
proof fn lemma_built_of_kind(
    p: ProtocolModel,
    task: Seq<char>,
    stage: u8,
    track: Track,
    m: RuleModel,
    s: u64,
    kind: spec_fn(DemoText) -> bool,
    but: int,
)
    requires
        renders_kind(m, kind),
        but == corrupted_at(p, m, s) || corruption_keeps(m, kind),
    ensures
        of_kind_but(built(p, task, stage, track, m, s).0.demos, kind, but),
{
    let (demos, q, t) = dealt(p, m, s);
    lemma_dealt_of_kind(p, m, s, kind);
    lemma_built_gates(p, task, stage, track, m, s);
    match m.policy {
        PolicyModel::ExcludeAnswer => {
            lemma_excluded_of_kind(m, demos, q.target, t, kind, but);
        },
        PolicyModel::Balanced { classes } => {
            if demos.len() > 1 && classes.len() == 2 {
                let ((need0, need1), after) = split_counts(demos.len(), t);
                let start = Balancing { demos: Seq::empty(), need0, need1, state: after };
                lemma_balancing_of_kind(m, demos, classes[0], classes[1], start, kind, but);
            }
        },
    }
}

/// An instance ships demonstrations of its own rule: all of them, unless one
/// was corrupted, and then all but one.
pub proof fn lemma_demos_follow_rule(
    p: ProtocolModel,
    task: Seq<char>,
    stage: u8,
    track: Track,
    m: RuleModel,
    s: u64,
    right: spec_fn(DemoText) -> bool,
)
    requires
        forall|t: u64| right((#[trigger] (m.demo)(t)).0),
    ensures
        ({
            let x = built(p, task, stage, track, m, s).0;
            &&& !x.corrupted_demo ==> forall|i: int|
                0 <= i < x.demos.len() ==> right(#[trigger] x.demos[i])
            &&& forall|i: int, j: int|
                0 <= i < j < x.demos.len() ==> right(#[trigger] x.demos[i]) || right(
                    #[trigger] x.demos[j],
                )
        }),
{
    lemma_built_of_kind(p, task, stage, track, m, s, right, corrupted_at(p, m, s));
    reveal(built);
}

/// Where demo outputs are of a kind that no target is of, and corruption keeps
/// them so, no demo of an instance ever shows its answer: whatever the
/// protocol and the generator state.
pub proof fn lemma_kinds_apart(
    p: ProtocolModel,
    task: Seq<char>,
    stage: u8,
    track: Track,
    m: RuleModel,
    s: u64,
    kind: spec_fn(Seq<char>) -> bool,
)
    requires
        forall|t: u64| kind((#[trigger] (m.demo)(t)).0.output),
        forall|t: u64| !kind((#[trigger] (m.query)(t)).0.target),
        forall|t: u64, o: Seq<char>| kind(o) ==> kind((#[trigger] (m.corrupted)(t, o)).0),
    ensures
        ({
            let x = built(p, task, stage, track, m, s).0;
            !shown(x.demos, x.expected)
        }),
{
    let shows_kind = |d: DemoText| kind(d.output);
    lemma_built_of_kind(p, task, stage, track, m, s, shows_kind, -1);
    lemma_built_query(p, task, stage, track, m, s);
    let x = built(p, task, stage, track, m, s).0;
    assert forall|i: int| 0 <= i < x.demos.len() implies (#[trigger] x.demos[i]).output
        != x.expected by {
        assert(shows_kind(x.demos[i]));
    }
}

/// The query of an instance is one that its rule renders.
proof fn lemma_built_query(
    p: ProtocolModel,
    task: Seq<char>,
    stage: u8,
    track: Track,
    m: RuleModel,
    s: u64,
)
    ensures
        ({
            let x = built(p, task, stage, track, m, s).0;
            exists|t: u64|
                (#[trigger] (m.query)(t)).0 == (QueryText {
                    input: x.query_input,
                    target: x.expected,
                })
        }),
{
    reveal(built);
    let (k, s1) = sampled_k(p, s);
    let (fresh, s2) = rendered_demos(m, rng::advance(s1, 1), k);
    let mixed = rng::shuffled(fresh, s2);
    let s3 = rng::advance(s2, rng::shuffle_draws(k));
    let (_, _, s4) = corrupted_demos(p, m, mixed, s3);
    let q = (m.query)(s4).0;
    assert(q =~= QueryText { input: q.input, target: q.target });
}

/// Whether everything that a rule says is printable.
pub open spec fn speaks_plainly(m: RuleModel) -> bool {
    &&& forall|t: u64|
        super::printable((#[trigger] (m.demo)(t)).0.input) && super::printable(
            (m.demo)(t).0.output,
        )
    &&& forall|t: u64|
        super::printable((#[trigger] (m.query)(t)).0.input) && super::printable(
            (m.query)(t).0.target,
        )
    &&& forall|t: u64, o: Seq<char>|
        super::printable(o) ==> super::printable((#[trigger] (m.corrupted)(t, o)).0)
    &&& m.header matches Some(h) ==> super::printable(h)
}

/// Whether `s` is made of printable characters and line feeds.
spec fn lines_printable(s: Seq<char>) -> bool {
    forall|i: int| 0 <= i < s.len() ==> ' ' <= #[trigger] s[i] <= '~' || s[i] == '\n'
}

proof fn lemma_demo_lines_printable(demos: Seq<DemoText>, sep: Seq<char>)
    requires
        super::printable(sep),
        forall|i: int|
            0 <= i < demos.len() ==> super::printable((#[trigger] demos[i]).input)
                && super::printable(demos[i].output),
    ensures
        lines_printable(demo_lines(demos, sep)),
    decreases demos.len(),
{
    if demos.len() > 0 {
        let front = demos.drop_last();
        assert forall|i: int| 0 <= i < front.len() implies super::printable(
            (#[trigger] front[i]).input,
        ) && super::printable(front[i].output) by {
            assert(front[i] == demos[i]);
        }
        lemma_demo_lines_printable(front, sep);
        let d = demos[demos.len() - 1];
        assert(super::printable(d.input) && super::printable(d.output));
        lemma_lines_add(demo_lines(front, sep), d.input);
        lemma_lines_add(demo_lines(front, sep) + d.input, sep);
        lemma_lines_add(demo_lines(front, sep) + d.input + sep, d.output);
        lemma_lines_add(demo_lines(front, sep) + d.input + sep + d.output, seq!['\n']);
    }
}

proof fn lemma_lines_add(a: Seq<char>, b: Seq<char>)
    requires
        lines_printable(a),
        lines_printable(b),
    ensures
        lines_printable(a + b),
{
    let c = a + b;
    assert forall|i: int| 0 <= i < c.len() implies ' ' <= #[trigger] c[i] <= '~' || c[i]
        == '\n' by {
        if i < a.len() {
            assert(c[i] == a[i]);
        } else {
            assert(c[i] == b[i - a.len()]);
        }
    }
}

/// Task content is printable ASCII, with line feeds between the lines of a
/// prompt: no byte of an instance is reserved, if its rule and its protocol
/// speak plainly.
pub proof fn lemma_built_printable(
    p: ProtocolModel,
    task: Seq<char>,
    stage: u8,
    track: Track,
    m: RuleModel,
    s: u64,
)
    requires
        p.seps.len() > 0,
        forall|i: int| 0 <= i < p.seps.len() ==> super::printable(#[trigger] p.seps[i]),
        speaks_plainly(m),
    ensures
        ({
            let x = built(p, task, stage, track, m, s).0;
            &&& forall|i: int|
                0 <= i < x.prompt.len() ==> 32 <= #[trigger] x.prompt[i] < 127 || x.prompt[i] == 10
            &&& forall|i: int| 0 <= i < x.target.len() ==> 32 <= #[trigger] x.target[i] < 127
        }),
{
    let x = built(p, task, stage, track, m, s).0;
    let plain = |d: DemoText| super::printable(d.input) && super::printable(d.output);
    lemma_built_of_kind(p, task, stage, track, m, s, plain, -1);
    lemma_built_query(p, task, stage, track, m, s);
    lemma_built_shape(p, task, stage, track, m, s);
    let j = choose|j: int|
        0 <= j < p.seps.len() && x.prompt == encode_utf8(
            prompt_text(m.header, #[trigger] p.seps[j], x.query_first, x.query_input, x.demos),
        );
    let sep = p.seps[j];
    let text = prompt_text(m.header, sep, x.query_first, x.query_input, x.demos);
    assert forall|i: int| 0 <= i < x.demos.len() implies super::printable(
        (#[trigger] x.demos[i]).input,
    ) && super::printable(x.demos[i].output) by {
        assert(plain(x.demos[i]));
    }
    lemma_demo_lines_printable(x.demos, sep);
    assert(lines_printable(text)) by {
        let head = header_line(m.header);
        let lines = demo_lines(x.demos, sep);
        let end = seq!['\n'];
        assert(lines_printable(head));
        if x.query_first {
            lemma_lines_add(head, seq!['Q', ' ']);
            let a = head + seq!['Q', ' '];
            lemma_lines_add(a, sep);
            lemma_lines_add(a + sep, end);
            let b = a + sep + end;
            lemma_lines_add(b, x.query_input);
            lemma_lines_add(b + x.query_input, sep);
            lemma_lines_add(b + x.query_input + sep, end);
            let c = b + x.query_input + sep + end;
            lemma_lines_add(c, lines);
            lemma_lines_add(c + lines, seq!['A']);
            lemma_lines_add(c + lines + seq!['A'], sep);
            lemma_lines_add(c + lines + seq!['A'] + sep, end);
        } else {
            lemma_lines_add(head, lines);
            lemma_lines_add(head + lines, x.query_input);
            lemma_lines_add(head + lines + x.query_input, sep);
            lemma_lines_add(head + lines + x.query_input + sep, end);
        }
    }
    is_ascii_chars_encode_utf8(text);
    assert forall|i: int| 0 <= i < x.prompt.len() implies 32 <= #[trigger] x.prompt[i] < 127
        || x.prompt[i] == 10 by {
        assert(text[i] as u8 == encode_utf8(text)[i]);
    }
    assert(super::printable(x.expected));
    is_ascii_chars_encode_utf8(x.expected);
    assert forall|i: int| 0 <= i < x.target.len() implies 32 <= #[trigger] x.target[i] < 127 by {
        assert(x.expected[i] as u8 == encode_utf8(x.expected)[i]);
    }
}

/// Whether `tries` renders in a row show no class that `b` still needs.
pub open spec fn starved(
    m: RuleModel,
    b: Balancing,
    c0: Seq<char>,
    c1: Seq<char>,
    tries: nat,
) -> bool
    decreases tries,
{
    let (d, after) = (m.demo)(b.state);
    !needed(b, d, c0, c1) && (tries <= 1 || starved(
        m,
        Balancing { state: after, ..b },
        c0,
        c1,
        (tries - 1) as nat,
    ))
}

/// How many demos show `output`.
pub open spec fn showing(demos: Seq<DemoText>, output: Seq<char>) -> nat
    decreases demos.len(),
{
    if demos.len() == 0 {
        0
    } else {
        showing(demos.drop_last(), output) + if demos.last().output == output {
            1nat
        } else {
            0nat
        }
    }
}

/// Whether the demos of `b` show the classes exactly as often as `need0` and
/// `need1` asked for, but for what is still needed.
spec fn on_count(b: Balancing, c0: Seq<char>, c1: Seq<char>, need0: nat, need1: nat) -> bool {
    &&& b.need0 + b.need1 + b.demos.len() == need0 + need1
    &&& showing(b.demos, c0) + b.need0 == need0
    &&& showing(b.demos, c1) + b.need1 == need1
}

proof fn lemma_taken_on_count(
    b: Balancing,
    d: DemoText,
    c0: Seq<char>,
    c1: Seq<char>,
    need0: nat,
    need1: nat,
)
    requires
        c0 != c1,
        on_count(b, c0, c1, need0, need1),
        needed(b, d, c0, c1),
    ensures
        on_count(taken(b, d, c0, c1), c0, c1, need0, need1),
{
    assert(taken(b, d, c0, c1).demos.drop_last() =~= b.demos);
}

proof fn lemma_refilled_on_count(
    m: RuleModel,
    b: Balancing,
    c0: Seq<char>,
    c1: Seq<char>,
    tries: nat,
    need0: nat,
    need1: nat,
)
    requires
        c0 != c1,
        on_count(b, c0, c1, need0, need1),
    ensures
        on_count(refilled(m, b, c0, c1, tries), c0, c1, need0, need1) || starved(
            m,
            b,
            c0,
            c1,
            tries,
        ),
    decreases tries,
{
    let (d, after) = (m.demo)(b.state);
    let next = Balancing { state: after, ..b };
    if needed(b, d, c0, c1) {
        lemma_taken_on_count(next, d, c0, c1, need0, need1);
    } else if tries > 1 {
        lemma_refilled_on_count(m, next, c0, c1, (tries - 1) as nat, need0, need1);
    }
}

/// The balancing pass gives exactly the class counts it was asked for, unless
/// a slot starved: then so many renders in a row showed no class that was
/// needed.
pub proof fn lemma_balancing(
    m: RuleModel,
    demos: Seq<DemoText>,
    c0: Seq<char>,
    c1: Seq<char>,
    need0: nat,
    need1: nat,
    s: u64,
)
    requires
        c0 != c1,
        demos.len() == need0 + need1,
    ensures
        ({
            let start = Balancing { demos: Seq::empty(), need0, need1, state: s };
            let b = balancing(m, demos, c0, c1, start);
            ||| showing(b.demos, c0) == need0 && showing(b.demos, c1) == need1
            ||| exists|i: int|
                0 <= i < demos.len() && starved(
                    m,
                    #[trigger] balancing(m, demos.take(i), c0, c1, start),
                    c0,
                    c1,
                    RESAMPLE_TRIES as nat,
                )
        }),
{
    let start = Balancing { demos: Seq::empty(), need0, need1, state: s };
    lemma_balancing_on_count(m, demos, c0, c1, need0, need1, s);
    lemma_balancing_len(m, demos, c0, c1, start);
}

/// The demos of an instance under [`DemoPolicy::Balanced`] with two classes
/// show either class as often as the other, or once more or less, and nothing
/// else; unless a slot starved. Single demos stay as they were dealt.
pub proof fn lemma_built_balances(
    p: ProtocolModel,
    task: Seq<char>,
    stage: u8,
    track: Track,
    m: RuleModel,
    s: u64,
    c0: Seq<char>,
    c1: Seq<char>,
)
    requires
        m.policy == (PolicyModel::Balanced { classes: seq![c0, c1] }),
        c0 != c1,
    ensures
        ({
            let x = built(p, task, stage, track, m, s).0;
            let (demos, _, t) = dealt(p, m, s);
            let ((need0, need1), after) = split_counts(demos.len(), t);
            let start = Balancing { demos: Seq::empty(), need0, need1, state: after };
            let n0 = showing(x.demos, c0);
            let n1 = showing(x.demos, c1);
            if demos.len() <= 1 {
                x.demos == demos
            } else {
                ||| n0 + n1 == x.demos.len() && -1 <= n0 - n1 <= 1
                ||| exists|i: int|
                    0 <= i < demos.len() && starved(
                        m,
                        #[trigger] balancing(m, demos.take(i), c0, c1, start),
                        c0,
                        c1,
                        RESAMPLE_TRIES as nat,
                    )
            }
        }),
{
    lemma_built_gates(p, task, stage, track, m, s);
    let (demos, q, t) = dealt(p, m, s);
    if demos.len() > 1 {
        let ((need0, need1), after) = split_counts(demos.len(), t);
        lemma_balancing(m, demos, c0, c1, need0, need1, after);
    }
}

proof fn lemma_balancing_on_count(
    m: RuleModel,
    demos: Seq<DemoText>,
    c0: Seq<char>,
    c1: Seq<char>,
    need0: nat,
    need1: nat,
    s: u64,
)
    requires
        c0 != c1,
    ensures
        ({
            let start = Balancing { demos: Seq::empty(), need0, need1, state: s };
            let b = balancing(m, demos, c0, c1, start);
            ||| on_count(b, c0, c1, need0, need1)
            ||| exists|i: int|
                0 <= i < demos.len() && starved(
                    m,
                    #[trigger] balancing(m, demos.take(i), c0, c1, start),
                    c0,
                    c1,
                    RESAMPLE_TRIES as nat,
                )
        }),
    decreases demos.len(),
{
    let start = Balancing { demos: Seq::empty(), need0, need1, state: s };
    if demos.len() > 0 {
        let front = demos.drop_last();
        let last = front.len() as int;
        lemma_balancing_on_count(m, front, c0, c1, need0, need1, s);
        let b = balancing(m, front, c0, c1, start);
        assert(demos.take(last) =~= front);
        if on_count(b, c0, c1, need0, need1) {
            if needed(b, demos.last(), c0, c1) {
                lemma_taken_on_count(b, demos.last(), c0, c1, need0, need1);
            } else {
                lemma_refilled_on_count(m, b, c0, c1, RESAMPLE_TRIES as nat, need0, need1);
                if starved(m, b, c0, c1, RESAMPLE_TRIES as nat) {
                    assert(starved(
                        m,
                        balancing(m, demos.take(last), c0, c1, start),
                        c0,
                        c1,
                        RESAMPLE_TRIES as nat,
                    ));
                }
            }
        } else {
            let i = choose|i: int|
                0 <= i < front.len() && starved(
                    m,
                    #[trigger] balancing(m, front.take(i), c0, c1, start),
                    c0,
                    c1,
                    RESAMPLE_TRIES as nat,
                );
            assert(front.take(i) =~= demos.take(i));
            assert(starved(
                m,
                balancing(m, demos.take(i), c0, c1, start),
                c0,
                c1,
                RESAMPLE_TRIES as nat,
            ));
        }
    } else {
        assert(showing(start.demos, c0) == 0 && showing(start.demos, c1) == 0);
    }
}

/// An instance says what it was built for, and for which query.
pub proof fn lemma_built_says_what_for(
    p: ProtocolModel,
    task: Seq<char>,
    stage: u8,
    track: Track,
    m: RuleModel,
    s: u64,
)
    ensures
        ({
            let (x, after) = built(p, task, stage, track, m, s);
            &&& x.task == task
            &&& x.stage == stage
            &&& x.track == track
            &&& x.target == encode_utf8(x.expected)
            &&& x.k == x.demos.len()
        }),
{
    lemma_built_gates(p, task, stage, track, m, s);
    reveal(built);
    let (k, s1) = sampled_k(p, s);
    let (fresh, s2) = rendered_demos(m, rng::advance(s1, 1), k);
    lemma_rendered_len(m, rng::advance(s1, 1), k);
    rng::lemma_shuffled_multiset(fresh, s2, rng::shuffle_draws(k));
}

/// The demos of a prompt, line by line: as many lines as demos, in their order,
/// each the demo's input, the separator, its output and a line feed.
pub proof fn lemma_demo_lines_flatten(demos: Seq<DemoText>, sep: Seq<char>)
    ensures
        demo_lines(demos, sep) == demos.map_values(
            |d: DemoText| d.input + sep + d.output + seq!['\n'],
        ).flatten(),
    decreases demos.len(),
{
    let line = |d: DemoText| d.input + sep + d.output + seq!['\n'];
    let lines = demos.map_values(line);
    lines.lemma_flatten_and_flatten_alt_are_equivalent();
    if demos.len() > 0 {
        let front = demos.drop_last();
        lemma_demo_lines_flatten(front, sep);
        front.map_values(line).lemma_flatten_and_flatten_alt_are_equivalent();
        assert(lines.drop_last() =~= front.map_values(line));
        assert(lines.last() == line(demos.last()));
        assert(demo_lines(demos, sep) =~= demo_lines(front, sep) + line(demos.last()));
    } else {
        assert(demo_lines(demos, sep) =~= lines.flatten_alt());
    }
}

/// Every demo of an instance stands in its prompt, and nothing else does but the
/// rule's statement and the query: where the query comes last, the prompt is the
/// statement, a line for every demo, and the query; where it comes first, it
/// stands before the demos and is asked for again behind them.
pub proof fn lemma_prompt_shows_all(
    p: ProtocolModel,
    task: Seq<char>,
    stage: u8,
    track: Track,
    m: RuleModel,
    s: u64,
) -> (sep: Seq<char>)
    requires
        p.seps.len() > 0,
    ensures
        ({
            let x = built(p, task, stage, track, m, s).0;
            let end = seq!['\n'];
            let head = match m.header {
                Some(h) => h + end,
                None => Seq::<char>::empty(),
            };
            let lines = x.demos.map_values(
                |d: DemoText| d.input + sep + d.output + seq!['\n'],
            ).flatten();
            &&& sep == p.seps[(rng::draw(sampled_k(p, s).1, 0) as nat % p.seps.len()) as int]
            &&& x.query_first ==> x.prompt == encode_utf8(
                head + (seq!['Q', ' '] + sep + end) + (x.query_input + sep + end) + lines + (seq!['A']
                    + sep + end),
            )
            &&& !x.query_first ==> x.prompt == encode_utf8(
                head + lines + (x.query_input + sep + end),
            )
        }),
{
    reveal(built);
    let x = built(p, task, stage, track, m, s).0;
    let sep = p.seps[rng::draw_below(sampled_k(p, s).1, 0, p.seps.len()) as int];
    let end = seq!['\n'];
    let head = match m.header {
        Some(h) => h + end,
        None => Seq::<char>::empty(),
    };
    let lines = demo_lines(x.demos, sep);
    lemma_demo_lines_flatten(x.demos, sep);
    assert(header_line(m.header) =~= head);
    let text = prompt_text(m.header, sep, x.query_first, x.query_input, x.demos);
    if x.query_first {
        assert(text =~= head + (seq!['Q', ' '] + sep + end) + (x.query_input + sep + end) + lines
            + (seq!['A'] + sep + end));
    } else {
        assert(text =~= head + lines + (x.query_input + sep + end));
    }
    sep
}

/// The line of demo `i` stands in the prompt: whatever comes before and after
/// it.
pub proof fn lemma_demo_stands_in_prompt(
    p: ProtocolModel,
    task: Seq<char>,
    stage: u8,
    track: Track,
    m: RuleModel,
    s: u64,
    i: int,
) -> (parts: (Seq<char>, Seq<char>, Seq<char>))
    requires
        p.seps.len() > 0,
        0 <= i < built(p, task, stage, track, m, s).0.k,
    ensures
        ({
            let x = built(p, task, stage, track, m, s).0;
            let (before, sep, behind) = parts;
            p.seps.contains(sep) && x.prompt == encode_utf8(
                before + (x.demos[i].input + sep + x.demos[i].output + seq!['\n']) + behind,
            )
        }),
{
    let x = built(p, task, stage, track, m, s).0;
    lemma_built_says_what_for(p, task, stage, track, m, s);
    let sep = lemma_prompt_shows_all(p, task, stage, track, m, s);
    let line = |d: DemoText| d.input + sep + d.output + seq!['\n'];
    let all = x.demos.map_values(line);
    let (a, b) = lemma_flatten_at(all, i);
    let end = seq!['\n'];
    let head = match m.header {
        Some(h) => h + end,
        None => Seq::<char>::empty(),
    };
    let one = x.demos[i].input + sep + x.demos[i].output + end;
    assert(all[i] == one);
    assert(all.flatten() == a + one + b);
    if x.query_first {
        let before = head + (seq!['Q', ' '] + sep + end) + (x.query_input + sep + end);
        let behind = seq!['A'] + sep + end;
        assert(before + all.flatten() + behind =~= (before + a) + one + (b + behind));
        (before + a, sep, b + behind)
    } else {
        let behind = x.query_input + sep + end;
        assert(head + all.flatten() + behind =~= (head + a) + one + (b + behind));
        (head + a, sep, b + behind)
    }
}

/// Part `i` of a list of texts stands in the list's text.
proof fn lemma_flatten_at(xs: Seq<Seq<char>>, i: int) -> (parts: (Seq<char>, Seq<char>))
    requires
        0 <= i < xs.len(),
    ensures
        xs.flatten() == parts.0 + xs[i] + parts.1,
    decreases xs.len(),
{
    xs.lemma_flatten_and_flatten_alt_are_equivalent();
    let front = xs.drop_last();
    front.lemma_flatten_and_flatten_alt_are_equivalent();
    if i == xs.len() - 1 {
        assert(xs.flatten() =~= front.flatten() + xs[i] + Seq::<char>::empty());
        (front.flatten(), Seq::empty())
    } else {
        let (a, b) = lemma_flatten_at(front, i);
        assert(xs.flatten() =~= a + xs[i] + (b + xs.last()));
        (a, b + xs.last())
    }
}

/// How many demos an instance gets: none where the first word drawn falls below
/// the rate's cutoff or the set has no positive number; else the positive number
/// of the set that the second word points at.
pub proof fn lemma_sampled_k(p: ProtocolModel, s: u64)
    ensures
        ({
            let pool = p.k_set.filter(|k: usize| k > 0);
            let (k, after) = sampled_k(p, s);
            if rng::draw(s, 0) < p.k0_rate.cutoff || pool.len() == 0 {
                k == 0 && after == rng::advance(s, 1)
            } else {
                k == pool[(rng::draw(s, 1) as nat % pool.len()) as int] && k > 0 && after
                    == rng::advance(s, 2)
            }
        }),
{
    let pool = p.k_set.filter(|k: usize| k > 0);
    lemma_positives_filter(p.k_set);
    if pool.len() > 0 {
        let j = (rng::draw(s, 1) as nat % pool.len()) as int;
        p.k_set.lemma_filter_pred(|k: usize| k > 0, j);
    }
}

proof fn lemma_positives_filter(ks: Seq<usize>)
    ensures
        positives(ks) == ks.filter(|k: usize| k > 0),
    decreases ks.len(),
{
    reveal(Seq::filter);
    if ks.len() > 0 {
        lemma_positives_filter(ks.drop_last());
    }
}

/// Demos are rendered one after the other, each from the state that the one
/// before left behind.
pub proof fn lemma_rendered_in_turn(m: RuleModel, s: u64, k: nat, i: int)
    requires
        0 <= i < k,
    ensures
        rendered_demos(m, s, k).0.len() == k,
        rendered_demos(m, s, k).0[i] == (m.demo)(rendered_demos(m, s, i as nat).1).0,
        rendered_demos(m, s, (i + 1) as nat).1 == (m.demo)(rendered_demos(m, s, i as nat).1).1,
        rendered_demos(m, s, 0).1 == s,
    decreases k,
{
    lemma_rendered_len(m, s, k);
    lemma_rendered_len(m, s, (k - 1) as nat);
    if i < k - 1 {
        lemma_rendered_in_turn(m, s, (k - 1) as nat, i);
    }
}

/// Corruption: with demos there, one word decides whether, another one which
/// demo, and that one's output alone is replaced by what the rule makes wrong of
/// it. Without demos nothing is drawn.
pub proof fn lemma_corruption(p: ProtocolModel, m: RuleModel, demos: Seq<DemoText>, s: u64)
    ensures
        ({
            let (hit, after, t) = corrupted_demos(p, m, demos, s);
            &&& hit <==> demos.len() > 0 && rng::draw(s, 0) < p.corrupt_rate.cutoff
            &&& after.len() == demos.len()
            &&& !hit ==> after == demos
            &&& !hit ==> t == rng::advance(
                s,
                if demos.len() == 0 {
                    0
                } else {
                    1
                },
            )
            &&& hit ==> {
                let i = (rng::draw(s, 1) as nat % demos.len()) as int;
                let (wrong, u) = (m.corrupted)(rng::advance(s, 2), demos[i].output);
                &&& t == u
                &&& after[i].input == demos[i].input && after[i].output == wrong
                &&& forall|j: int| 0 <= j < demos.len() && j != i ==> after[j] == demos[j]
            }
        }),
{
    rng::lemma_advance_adds(s, 0, 0);
}

/// Class counts of `k` demos: they add up to `k` and differ by no more than one;
/// where they differ, one draw says which class has the extra demo.
pub proof fn lemma_split_counts(k: nat, s: u64)
    ensures
        ({
            let ((a, b), after) = split_counts(k, s);
            &&& a + b == k
            &&& a == b <==> k % 2 == 0
            &&& a == b ==> after == s
            &&& a != b ==> after == rng::advance(s, 1)
            &&& a != b && rng::draw(s, 0) % 2 == 0 ==> a == b + 1
            &&& a != b && rng::draw(s, 0) % 2 == 1 ==> b == a + 1
        }),
{
}

/// An output occurs in a demo exactly if that demo's output is it with something
/// before and something behind, if only nothing.
pub proof fn lemma_occurs_inside(demos: Seq<DemoText>, output: Seq<char>)
    ensures
        occurs(demos, output) <==> exists|i: int, a: Seq<char>, b: Seq<char>|
            0 <= i < demos.len() && (#[trigger] demos[i]).output == #[trigger] (a + output + b),
{
    if occurs(demos, output) {
        let (i, p) = choose|i: int, p: int|
            0 <= i < demos.len() && #[trigger] stands_at(demos[i].output, output, p);
        let text = demos[i].output;
        let a = text.take(p);
        let b = text.skip(p + output.len());
        assert(text =~= a + output + b);
        assert(demos[i].output == a + output + b);
    }
    if exists|i: int, a: Seq<char>, b: Seq<char>|
        0 <= i < demos.len() && (#[trigger] demos[i]).output == #[trigger] (a + output + b) {
        let (i, a, b) = choose|i: int, a: Seq<char>, b: Seq<char>|
            0 <= i < demos.len() && (#[trigger] demos[i]).output == #[trigger] (a + output + b);
        let text = demos[i].output;
        assert(text.subrange(a.len() as int, (a.len() + output.len()) as int) =~= output);
        assert(stands_at(text, output, a.len() as int));
    }
}

/// The copies are the outputs that occur in some demo, each counted once.
pub proof fn lemma_copies_counted(demos: Seq<DemoText>, outputs: Seq<&str>)
    ensures
        copies(demos, outputs) == outputs.filter(|o: &str| occurs(demos, o@)).len(),
    decreases outputs.len(),
{
    reveal(Seq::filter);
    if outputs.len() > 0 {
        lemma_copies_counted(demos, outputs.drop_last());
    }
}

/// Which render takes the place of a demo that shows the target: the first one
/// that does not, or the last one allowed; `n` of them are rendered.
proof fn lemma_resampled_first(m: RuleModel, d: DemoText, target: Seq<char>, s: u64, tries: nat) -> (n:
    nat)
    requires
        d.output == target,
        tries > 0,
    ensures
        ({
            let (renders, after) = rendered_demos(m, s, n);
            &&& 1 <= n <= tries
            &&& renders.len() == n
            &&& resampled(m, d, target, s, tries) == (renders.last(), after)
            &&& forall|j: int| 0 <= j < n - 1 ==> (#[trigger] renders[j]).output == target
            &&& n < tries ==> renders.last().output != target
        }),
    decreases tries,
{
    let (next, after) = (m.demo)(s);
    lemma_rendered_front(m, s, 0);
    lemma_rendered_len(m, s, 1);
    lemma_rendered_len(m, after, 0);
    assert(rendered_demos(m, s, 1).0[0] == next);
    if next.output != target || tries == 1 {
        assert(resampled(m, next, target, after, (tries - 1) as nat) == (next, after));
        1
    } else {
        let k = lemma_resampled_first(m, next, target, after, (tries - 1) as nat);
        let rest = rendered_demos(m, after, k).0;
        let all = rendered_demos(m, s, k + 1).0;
        lemma_rendered_front(m, s, k);
        assert(all =~= seq![next] + rest);
        assert(all.last() == rest.last());
        assert forall|j: int| 0 <= j < k implies (#[trigger] all[j]).output == target by {
            if j > 0 {
                assert(all[j] == rest[j - 1]);
            }
        }
        k + 1
    }
}

/// What the exclusion pass does to demo `i`: one that does not show the target
/// stays, and nothing is rendered for it; one that does is rendered anew until a
/// render does not, thirty-two times at the most. `n` is how many renders it
/// took, from the state that the demos before it left behind.
pub proof fn lemma_exclusion_renders(
    m: RuleModel,
    demos: Seq<DemoText>,
    target: Seq<char>,
    s: u64,
    i: int,
) -> (n: nat)
    requires
        0 <= i < demos.len(),
    ensures
        ({
            let t = excluded(m, demos.take(i), target, s).1;
            let now = excluded(m, demos, target, s).0[i];
            let (renders, after) = rendered_demos(m, t, n);
            &&& excluded(m, demos.take(0), target, s).1 == s
            &&& excluded(m, demos.take(i + 1), target, s).1 == after
            &&& n <= 32
            &&& renders.len() == n
            &&& n == 0 <==> demos[i].output != target
            &&& n == 0 ==> now == demos[i]
            &&& n > 0 ==> now == renders.last()
            &&& forall|j: int| 0 <= j < n - 1 ==> (#[trigger] renders[j]).output == target
            &&& 0 < n < 32 ==> now.output != target
        }),
    decreases demos.len(),
{
    let front = demos.drop_last();
    lemma_excluded_len(m, front, target, s);
    assert(demos.take(0) =~= Seq::<DemoText>::empty());
    if i < front.len() {
        let n = lemma_exclusion_renders(m, front, target, s, i);
        assert(front.take(i) =~= demos.take(i));
        assert(front.take(i + 1) =~= demos.take(i + 1));
        n
    } else {
        let t = excluded(m, front, target, s).1;
        assert(demos.take(i) =~= front);
        assert(demos.take(i + 1) =~= demos);
        if demos[i].output == target {
            lemma_resampled_first(m, demos[i], target, t, 32)
        } else {
            assert(rendered_demos(m, t, 0).0.len() == 0);
            0
        }
    }
}

/// Which render fills a slot: the first one that shows a class still needed, or
/// the last one allowed; `n` of them are rendered.
proof fn lemma_refilled_first(m: RuleModel, b: Balancing, c0: Seq<char>, c1: Seq<char>, tries: nat) -> (n:
    nat)
    requires
        tries > 0,
    ensures
        ({
            let (renders, after) = rendered_demos(m, b.state, n);
            let next = refilled(m, b, c0, c1, tries);
            &&& 1 <= n <= tries
            &&& renders.len() == n
            &&& next == taken(Balancing { state: after, ..b }, renders.last(), c0, c1)
            &&& forall|j: int| 0 <= j < n - 1 ==> !needed(b, #[trigger] renders[j], c0, c1)
            &&& n < tries ==> needed(b, renders.last(), c0, c1)
        }),
    decreases tries,
{
    let (d, after) = (m.demo)(b.state);
    lemma_rendered_front(m, b.state, 0);
    lemma_rendered_len(m, b.state, 1);
    lemma_rendered_len(m, after, 0);
    assert(rendered_demos(m, b.state, 1).0[0] == d);
    if needed(b, d, c0, c1) || tries == 1 {
        1
    } else {
        let next = Balancing { state: after, ..b };
        let k = lemma_refilled_first(m, next, c0, c1, (tries - 1) as nat);
        let rest = rendered_demos(m, after, k).0;
        let all = rendered_demos(m, b.state, k + 1).0;
        lemma_rendered_front(m, b.state, k);
        assert(all =~= seq![d] + rest);
        assert(all.last() == rest.last());
        assert forall|j: int| 0 <= j < k implies !needed(b, #[trigger] all[j], c0, c1) by {
            if j > 0 {
                assert(all[j] == rest[j - 1]);
                assert(!needed(next, rest[j - 1], c0, c1));
            }
        }
        k + 1
    }
}

/// What the balancing pass does with demo `i`: one that shows a class still
/// needed stays, and nothing is rendered for it; for any other, renders are made
/// until one does, thirty-two at the most. The demos before it stay as they are,
/// and a class is needed once less where it was shown. `n` is how many renders
/// it took, from the state that the demos before it left behind.
pub proof fn lemma_balancing_renders(
    m: RuleModel,
    demos: Seq<DemoText>,
    c0: Seq<char>,
    c1: Seq<char>,
    start: Balancing,
    i: int,
) -> (n: nat)
    requires
        0 <= i < demos.len(),
        c0 != c1,
    ensures
        ({
            let b = balancing(m, demos.take(i), c0, c1, start);
            let next = balancing(m, demos.take(i + 1), c0, c1, start);
            let wants = |d: DemoText|
                (d.output == c0 && b.need0 > 0) || (d.output == c1 && b.need1 > 0);
            let now = next.demos.last();
            let (renders, after) = rendered_demos(m, b.state, n);
            &&& balancing(m, demos.take(0), c0, c1, start) == start
            &&& next.demos.len() == b.demos.len() + 1
            &&& next.demos.drop_last() == b.demos
            &&& next.state == after
            &&& n <= 32
            &&& renders.len() == n
            &&& n == 0 <==> wants(demos[i])
            &&& n == 0 ==> now == demos[i]
            &&& n > 0 ==> now == renders.last()
            &&& forall|j: int| 0 <= j < n - 1 ==> !wants(#[trigger] renders[j])
            &&& 0 < n < 32 ==> wants(now)
            &&& next.need0 + (if now.output == c0 && b.need0 > 0 {
                1nat
            } else {
                0
            }) == b.need0
            &&& next.need1 + (if now.output == c1 && b.need1 > 0 {
                1nat
            } else {
                0
            }) == b.need1
        }),
{
    let b = balancing(m, demos.take(i), c0, c1, start);
    let more = demos.take(i + 1);
    assert(more.drop_last() =~= demos.take(i));
    assert(more.last() == demos[i]);
    assert(demos.take(0).len() == 0);
    let next = balancing(m, more, c0, c1, start);
    if needed(b, demos[i], c0, c1) {
        assert(next.demos.drop_last() =~= b.demos);
        assert(rendered_demos(m, b.state, 0).0.len() == 0);
        0
    } else {
        let n = lemma_refilled_first(m, b, c0, c1, 32);
        let renders = rendered_demos(m, b.state, n).0;
        assert(next.demos.drop_last() =~= b.demos);
        assert forall|j: int| 0 <= j < n - 1 implies !needed(b, #[trigger] renders[j], c0, c1) by {}
        n
    }
}

/// The policy of a rule, applied: exclusion runs over all demos; balancing only
/// over two demos and more, with two classes, and starts from an even split.
pub proof fn lemma_policy_applied(m: RuleModel, demos: Seq<DemoText>, target: Seq<char>, s: u64)
    ensures
        m.policy == PolicyModel::ExcludeAnswer ==> gated(m, demos, target, s) == excluded(
            m,
            demos,
            target,
            s,
        ),
        m.policy matches PolicyModel::Balanced { classes } ==> {
            let (after, t) = gated(m, demos, target, s);
            let ((a, b), u) = split_counts(demos.len(), s);
            let last = balancing(
                m,
                demos,
                classes[0],
                classes[1],
                Balancing { demos: Seq::empty(), need0: a, need1: b, state: u },
            );
            if demos.len() >= 2 && classes.len() == 2 {
                after == last.demos && t == last.state
            } else {
                after == demos && t == s
            }
        },
        gated(m, demos, target, s).0.len() == demos.len(),
{
    lemma_gated_len(m, demos, target, s);
}

/// How an instance comes about, from state to state: the number of demos, the
/// separator, the demos, their order, a corruption at times, the query, its
/// place, and the policy last of all, on the demos as they ship.
pub proof fn lemma_built_in_stages(
    p: ProtocolModel,
    task: Seq<char>,
    stage: u8,
    track: Track,
    m: RuleModel,
    s: u64,
)
    ensures
        ({
            let (x, after) = built(p, task, stage, track, m, s);
            let (k, s1) = sampled_k(p, s);
            let (fresh, s2) = rendered_demos(m, rng::advance(s1, 1), k);
            let s3 = rng::advance(
                s2,
                if k == 0 {
                    0
                } else {
                    (k - 1) as nat
                },
            );
            let (hit, given, s4) = corrupted_demos(p, m, rng::shuffled(fresh, s2), s3);
            let (q, s5) = (m.query)(s4);
            &&& x.k == k
            &&& x.corrupted_demo == hit
            &&& x.query_input == q.input
            &&& x.expected == q.target
            &&& x.query_first <==> k > 0 && rng::draw(s5, 0) < 0x7FFF_FFFF_FFFF_FE00
            &&& gated(m, given, q.target, rng::advance(s5, 1)) == (x.demos, after)
        }),
{
    reveal(built);
}

/// Demos that show an output are counted once each.
pub proof fn lemma_showing_filter(demos: Seq<DemoText>, output: Seq<char>)
    ensures
        showing(demos, output) == demos.filter(|d: DemoText| d.output == output).len(),
    decreases demos.len(),
{
    reveal(Seq::filter);
    if demos.len() > 0 {
        lemma_showing_filter(demos.drop_last(), output);
    }
}

/// The standing protocol, spelled out.
pub proof fn lemma_default_spelled()
    ensures
        ({
            let p = default_protocol();
            &&& p.k_set == seq![0usize, 1, 2, 3, 5, 8]
            &&& p.seps == seq!["->"@, ":"@, "="@, "|"@]
            &&& p.k0_rate.cutoff == CUTOFF_FIFTEEN
            &&& p.corrupt_rate.cutoff == CUTOFF_FIVE
        }),
{
    reveal_strlit("->");
    reveal_strlit(":");
    reveal_strlit("=");
    reveal_strlit("|");
    let p = default_protocol();
    assert(p.seps[0] =~= "->"@);
    assert(p.seps[1] =~= ":"@);
    assert(p.seps[2] =~= "="@);
    assert(p.seps[3] =~= "|"@);
    assert(p.seps =~= seq!["->"@, ":"@, "="@, "|"@]);
}

} // verus!
