//! Task harness core.
//!
//! Adding a task = implement [`Task`] + [`Rule`], add one line to
//! [`TaskRegistry::builtin`]. Everything else (k-sampling, demo resampling,
//! regime separation, layout randomization, corruption, copy-rate) lives in
//! [`demo`] and applies uniformly.

pub mod copy;
pub mod demo;
pub mod dyck;
pub mod fst;
pub mod parity;
pub mod periodic;
pub mod rate;
pub mod rng;
pub mod scan;

use vstd::prelude::*;
use vstd::utf8::*;

use crate::text::string_of_bytes;
pub use demo::{DemoProtocol, InstanceInfo};
pub use rng::HarnessRng;

verus! {

/// Track A: rule seen in training, held-out instances.
/// Track B: rule never seen, defined only by prompt demos.
#[derive(Debug, Clone, Copy, PartialEq, Eq, Structural)]
pub enum Track {
    A,
    B,
}

/// The symbols of a track: `abc` for A, `xyz` for B.
pub open spec fn track_letters(track: Track) -> Seq<u8> {
    match track {
        Track::A => seq![97u8, 98u8, 99u8],
        Track::B => seq![120u8, 121u8, 122u8],
    }
}

/// The tracks share no symbol.
pub proof fn lemma_track_letters_disjoint(i: int, j: int)
    requires
        0 <= i < track_letters(Track::A).len(),
        0 <= j < track_letters(Track::B).len(),
    ensures
        track_letters(Track::A)[i] != track_letters(Track::B)[j],
{
}

/// The symbols of `track`.
pub fn letters(track: Track) -> (r: Vec<u8>)
    ensures
        r@ == track_letters(track),
{
    let mut out: Vec<u8> = Vec::new();
    match track {
        Track::A => {
            out.push(97);
            out.push(98);
            out.push(99);
        },
        Track::B => {
            out.push(120);
            out.push(121);
            out.push(122);
        },
    }
    assert(out@ =~= track_letters(track));
    out
}

/// Whether no symbol of `alphabet` is white space.
pub open spec fn prints(alphabet: Seq<u8>) -> bool {
    forall|i: int|
        0 <= i < alphabet.len() ==> !crate::text::is_white(#[trigger] alphabet[i] as char)
}

/// A drawn string is made of symbols of its alphabet.
pub proof fn lemma_token_symbols(s: u64, alphabet: Seq<u8>, lo: nat, hi: nat, i: int)
    requires
        alphabet.len() > 0,
        lo < hi,
        0 <= i < rng::token_len(s, lo, hi),
    ensures
        lo <= rng::token_text(s, alphabet, lo, hi).len() < hi,
        exists|j: int|
            0 <= j < alphabet.len() && rng::token_text(s, alphabet, lo, hi)[i]
                == #[trigger] alphabet[j] as char,
{
    let j = rng::draw_below(s, (i + 1) as nat, alphabet.len()) as int;
    assert(rng::token_text(s, alphabet, lo, hi)[i] == alphabet[j] as char);
}

/// Whether `s` is made of printable ASCII characters.
pub open spec fn printable(s: Seq<char>) -> bool {
    forall|i: int| 0 <= i < s.len() ==> ' ' <= #[trigger] s[i] <= '~'
}

/// A string drawn from an ASCII alphabet is ASCII.
pub proof fn lemma_token_ascii(s: u64, alphabet: Seq<u8>, lo: nat, hi: nat)
    requires
        alphabet.len() > 0,
        lo < hi,
        forall|i: int| 0 <= i < alphabet.len() ==> #[trigger] alphabet[i] < 128,
    ensures
        is_ascii_chars(rng::token_text(s, alphabet, lo, hi)),
{
    let text = rng::token_text(s, alphabet, lo, hi);
    assert forall|i: int| 0 <= i < text.len() implies '\0' <= #[trigger] text[i] <= '\u{7f}' by {
        lemma_token_symbols(s, alphabet, lo, hi, i);
    }
}

/// Whether `alphabet` is made of printable ASCII symbols.
pub open spec fn printable_bytes(alphabet: Seq<u8>) -> bool {
    forall|i: int| 0 <= i < alphabet.len() ==> 32 <= #[trigger] alphabet[i] < 127
}

/// A string drawn from a printable alphabet is printable.
pub proof fn lemma_token_printable(s: u64, alphabet: Seq<u8>, lo: nat, hi: nat)
    requires
        alphabet.len() > 0,
        lo < hi,
        printable_bytes(alphabet),
    ensures
        printable(rng::token_text(s, alphabet, lo, hi)),
{
    let text = rng::token_text(s, alphabet, lo, hi);
    assert forall|i: int| 0 <= i < text.len() implies ' ' <= #[trigger] text[i] <= '~' by {
        lemma_token_symbols(s, alphabet, lo, hi, i);
    }
}

/// What a [`Demo`] says.
#[verifier::ext_equal]
pub struct DemoText {
    pub input: Seq<char>,
    pub output: Seq<char>,
}

/// What a [`Query`] says.
#[verifier::ext_equal]
pub struct QueryText {
    pub input: Seq<char>,
    pub target: Seq<char>,
}

/// One rendered demonstration: latent rule applied to a demo-regime input.
#[derive(Debug)]
pub struct Demo {
    pub input: String,
    pub output: String,
}

impl View for Demo {
    type V = DemoText;

    open spec fn view(&self) -> DemoText {
        DemoText { input: self.input@, output: self.output@ }
    }
}

impl Clone for Demo {
    fn clone(&self) -> (r: Self)
        ensures
            r@ == self@,
    {
        Demo { input: self.input.clone(), output: self.output.clone() }
    }
}

/// Query in the query regime + its expected answer.
#[derive(Debug)]
pub struct Query {
    pub input: String,
    pub target: String,
}

impl View for Query {
    type V = QueryText;

    open spec fn view(&self) -> QueryText {
        QueryText { input: self.input@, target: self.target@ }
    }
}

impl Clone for Query {
    fn clone(&self) -> (r: Self)
        ensures
            r@ == self@,
    {
        Query { input: self.input.clone(), target: self.target.clone() }
    }
}

/// The characters of each of `xs`.
pub open spec fn texts(xs: Seq<String>) -> Seq<Seq<char>> {
    xs.map_values(|x: String| x@)
}

/// What a [`DemoPolicy`] says.
pub enum PolicyModel {
    ExcludeAnswer,
    Balanced { classes: Seq<Seq<char>> },
}

/// How the demo outputs that ship with an instance relate to its answer.
/// Enforcement runs after corruption, on the demos as they ship: it may
/// overwrite the corrupted one.
#[derive(Debug, Clone)]
pub enum DemoPolicy {
    /// No demo output equals the query target.
    ExcludeAnswer,
    /// The demo outputs cover `classes` evenly.
    Balanced { classes: Vec<String> },
}

impl View for DemoPolicy {
    type V = PolicyModel;

    open spec fn view(&self) -> PolicyModel {
        match self {
            DemoPolicy::ExcludeAnswer => PolicyModel::ExcludeAnswer,
            DemoPolicy::Balanced { classes } => PolicyModel::Balanced { classes: texts(classes@) },
        }
    }
}

/// What an [`Instance`] says.
#[verifier::ext_equal]
pub struct InstanceModel {
    pub prompt: Seq<u8>,
    pub target: Seq<u8>,
    pub task: Seq<char>,
    pub stage: u8,
    pub track: Track,
    pub k: nat,
    pub demos: Seq<DemoText>,
    pub query_input: Seq<char>,
    pub expected: Seq<char>,
    pub corrupted_demo: bool,
    pub query_first: bool,
}

/// A training/eval instance: byte prompt, byte target, metadata for metrics.
#[derive(Debug)]
pub struct Instance {
    pub prompt: Vec<u8>,
    pub target: Vec<u8>,
    pub info: InstanceInfo,
}

impl View for Instance {
    type V = InstanceModel;

    open spec fn view(&self) -> InstanceModel {
        InstanceModel {
            prompt: self.prompt@,
            target: self.target@,
            task: self.info.task@,
            stage: self.info.stage,
            track: self.info.track,
            k: self.info.k as nat,
            demos: demo::demo_texts(self.info.demos@),
            query_input: self.info.query_input@,
            expected: self.info.expected@,
            corrupted_demo: self.info.corrupted_demo,
            query_first: self.info.query_first,
        }
    }
}

impl Clone for Instance {
    fn clone(&self) -> (r: Self)
        ensures
            r@ == self@,
    {
        let prompt: Vec<u8> = self.prompt.clone();
        let target: Vec<u8> = self.target.clone();
        assert(prompt@ =~= self.prompt@);
        assert(target@ =~= self.target@);
        Instance { prompt, target, info: self.info.clone() }
    }
}

/// Byte values as ids.
pub open spec fn byte_ids(bytes: Seq<u8>) -> Seq<i64> {
    bytes.map_values(|b: u8| b as i64)
}

fn ids_of(bytes: &Vec<u8>) -> (r: Vec<i64>)
    ensures
        r@ == byte_ids(bytes@),
{
    let mut out: Vec<i64> = Vec::new();
    let mut i: usize = 0;
    while i < bytes.len()
        invariant
            i <= bytes@.len(),
            out@ =~= byte_ids(bytes@).take(i as int),
        decreases bytes@.len() - i,
    {
        out.push(bytes[i] as i64);
        i = i + 1;
    }
    out
}

impl Instance {
    /// The prompt's byte values as i64 ids.
    pub fn prompt_ids(&self) -> (r: Vec<i64>)
        ensures
            r@ == byte_ids(self.prompt@),
    {
        ids_of(&self.prompt)
    }

    /// The target's byte values as i64 ids.
    pub fn target_ids(&self) -> (r: Vec<i64>)
        ensures
            r@ == byte_ids(self.target@),
    {
        ids_of(&self.target)
    }
}

/// What a rule is: its behaviour as a function of the generator state.
pub struct RuleModel {
    /// Whether the rule can render.
    pub ready: bool,
    /// The demo rendered from a generator state, and the state after it.
    pub demo: spec_fn(u64) -> (DemoText, u64),
    /// The query rendered from a generator state, and the state after it.
    pub query: spec_fn(u64) -> (QueryText, u64),
    /// Whether the rule can judge an output for an input.
    pub decides: spec_fn(Seq<char>, Seq<char>) -> bool,
    /// Whether an output answers an input.
    pub accepts: spec_fn(Seq<char>, Seq<char>) -> bool,
    /// The wrong output made of an output, and the state after it.
    pub corrupted: spec_fn(u64, Seq<char>) -> (Seq<char>, u64),
    pub policy: PolicyModel,
    /// The statement of the rule that precedes the prompt, if it makes one.
    pub header: Option<Seq<char>>,
}

/// Whether a demo's output answers its input by the rule.
pub open spec fn right_by(m: RuleModel, d: DemoText) -> bool {
    (m.accepts)(d.input, d.output)
}

/// Whether every demo that a rule renders is right by that rule.
pub open spec fn demos_right(m: RuleModel) -> bool {
    forall|t: u64| right_by(m, (#[trigger] (m.demo)(t)).0)
}

/// A latent rule: renders demos/queries and judges outputs.
/// Demo and query regimes MUST differ (lengths/symbols) so models cannot
/// copy-match; each task documents its regime split.
pub trait Rule: Send + Sync {
    spec fn model(&self) -> RuleModel;

    fn render_demo(&self, rng: &mut HarnessRng) -> (d: Demo)
        requires
            self.model().ready,
        ensures
            (d@, final(rng)@) == (self.model().demo)(old(rng)@),
    ;

    fn render_query(&self, rng: &mut HarnessRng) -> (q: Query)
        requires
            self.model().ready,
        ensures
            (q@, final(rng)@) == (self.model().query)(old(rng)@),
    ;

    /// Judge a (query input, model output) pair.
    fn verify(&self, input: &str, output: &str) -> (r: bool)
        requires
            (self.model().decides)(input@, output@),
        ensures
            r == (self.model().accepts)(input@, output@),
    ;

    /// Produce a wrong output for the ~5% corrupted-demo instances.
    /// [`flip_symbol`] is the stock way.
    fn corrupt(&self, rng: &mut HarnessRng, output: &str) -> (r: String)
        ensures
            (r@, final(rng)@) == (self.model().corrupted)(old(rng)@, output@),
    ;

    /// How demo outputs relate to the answer.
    fn demo_policy(&self) -> (r: DemoPolicy)
        ensures
            r@ == self.model().policy,
    ;

    /// The rule in words, for prompts that state it; `None` otherwise.
    fn oracle_header(&self) -> (r: Option<String>)
        ensures
            crate::text::text_of(r) == self.model().header,
    ;
}

/// The symbols that [`flip_symbol`] writes: `01ab()[]+-*`.
pub const POOL: [u8; 11] = [48, 49, 97, 98, 40, 41, 91, 93, 43, 45, 42];

/// How often [`flip_symbol`] draws again for a symbol that changes something,
/// before it settles for the next one in the pool.
pub const FLIP_TRIES: u64 = 16;

/// The symbol behind position `at` of the pool, the first behind the last.
pub open spec fn pool_after(at: int) -> u8 {
    if at + 1 < POOL@.len() {
        POOL@[at + 1]
    } else {
        POOL@[0]
    }
}

/// The first symbol drawn from the pool that differs from `b`, and the state
/// after it. If none of `tries + 1` draws does, the symbol behind the last one.
pub open spec fn other_symbol(s: u64, b: u8, tries: nat) -> (u8, u64)
    decreases tries,
{
    let at = rng::draw_below(s, 0, POOL@.len()) as int;
    if POOL@[at] != b {
        (POOL@[at], rng::advance(s, 1))
    } else if tries > 0 {
        other_symbol(rng::advance(s, 1), b, (tries - 1) as nat)
    } else {
        (pool_after(at), rng::advance(s, 1))
    }
}

/// `output` with one byte replaced by another symbol, `X` where that leaves no
/// valid string or there was no byte to replace; and the state after it.
pub open spec fn flipped(s: u64, output: Seq<char>) -> (Seq<char>, u64) {
    let bytes = encode_utf8(output);
    if bytes.len() == 0 {
        ("X"@, s)
    } else {
        let i = rng::draw_below(s, 0, bytes.len()) as int;
        let (symbol, after) = other_symbol(rng::advance(s, 1), bytes[i], FLIP_TRIES as nat);
        let changed = bytes.update(i, symbol);
        (
            if valid_utf8(changed) {
                decode_utf8(changed)
            } else {
                "X"@
            },
            after,
        )
    }
}

/// The stock corruption: flip one character to a different ASCII symbol.
pub fn flip_symbol(rng: &mut HarnessRng, output: &str) -> (r: String)
    ensures
        (r@, final(rng)@) == flipped(old(rng)@, output@),
{
    let mut bytes: Vec<u8> = crate::text::bytes_of(output);
    if bytes.len() == 0 {
        return "X".to_string();
    }
    let i: usize = rng.below(bytes.len());
    let pool: [u8; 11] = POOL;
    let b: u8 = bytes[i];
    let ghost start = rng@;
    let mut at: usize = rng.below(pool.len());
    let mut guard: u64 = 0;
    let ghost mut before = start;
    while pool[at] == b && guard < FLIP_TRIES
        invariant
            guard <= FLIP_TRIES,
            pool@ == POOL@,
            other_symbol(start, b, FLIP_TRIES as nat) == other_symbol(
                before,
                b,
                (FLIP_TRIES - guard) as nat,
            ),
            at == rng::draw_below(before, 0, POOL@.len()),
            at < pool@.len(),
            rng@ == rng::advance(before, 1),
        decreases FLIP_TRIES - guard,
    {
        proof {
            before = rng@;
        }
        at = rng.below(pool.len());
        guard = guard + 1;
    }
    let replacement: u8 = if pool[at] != b {
        pool[at]
    } else if at + 1 < pool.len() {
        pool[at + 1]
    } else {
        pool[0]
    };
    bytes.set(i, replacement);
    match string_of_bytes(bytes) {
        Some(s) => {
            proof {
                vstd::utf8::encode_utf8_decode_utf8(s@);
            }
            s
        },
        None => "X".to_string(),
    }
}

/// The symbols that [`flip_symbol`] writes are printable, and each differs from
/// the one behind it.
proof fn lemma_pool(i: int)
    requires
        0 <= i < POOL@.len(),
    ensures
        32 <= POOL@[i] < 127,
        pool_after(i) != POOL@[i],
        POOL@.contains(pool_after(i)),
{
    assert(POOL@.contains(POOL@[0]));
    if i + 1 < POOL@.len() {
        assert(POOL@.contains(POOL@[i + 1]));
    }
}

/// The symbol written in place of `b` comes from the pool and is not `b`.
proof fn lemma_other_symbol(s: u64, b: u8, tries: nat)
    ensures
        32 <= other_symbol(s, b, tries).0 < 127,
        POOL@.contains(other_symbol(s, b, tries).0),
        other_symbol(s, b, tries).0 != b,
    decreases tries,
{
    let at = rng::draw_below(s, 0, POOL@.len()) as int;
    lemma_pool(at);
    if at + 1 < POOL@.len() {
        lemma_pool(at + 1);
    } else {
        lemma_pool(0);
    }
    if POOL@[at] == b && tries > 0 {
        lemma_other_symbol(rng::advance(s, 1), b, (tries - 1) as nat);
    }
}

/// The stock corruption makes a wrong output, whatever is drawn; and it has as
/// many bytes as the output, unless it is an `X`.
pub proof fn lemma_flip_is_wrong(s: u64, output: Seq<char>)
    ensures
        flipped(s, output).0 != output,
        encode_utf8(flipped(s, output).0).len() == encode_utf8(output).len() || encode_utf8(
            flipped(s, output).0,
        ).len() == 1,
{
    let bytes = encode_utf8(output);
    reveal_strlit("X");
    assert("X"@ =~= seq!['X']);
    is_ascii_chars_encode_utf8("X"@);
    if bytes.len() == 0 {
        assert("X"@ != output);
    } else {
        let i = rng::draw_below(s, 0, bytes.len()) as int;
        let symbol = other_symbol(rng::advance(s, 1), bytes[i], FLIP_TRIES as nat).0;
        let changed = bytes.update(i, symbol);
        lemma_other_symbol(rng::advance(s, 1), bytes[i], FLIP_TRIES as nat);
        if valid_utf8(changed) {
            decode_utf8_encode_utf8(changed);
            assert(changed[i] != bytes[i]);
        } else if output == "X"@ {
            let one = seq![symbol as char];
            is_ascii_chars_encode_utf8(one);
            encode_utf8_valid_utf8(one);
            assert(changed =~= encode_utf8(one));
        }
    }
}

/// The stock corruption of an ASCII output: an `X` where there was nothing to
/// replace, else the output with one character, the one at the position
/// returned, replaced by another one of the pool.
pub proof fn lemma_flip_changes_one(s: u64, output: Seq<char>) -> (at: int)
    requires
        is_ascii_chars(output),
    ensures
        output.len() == 0 ==> flipped(s, output).0 == seq!['X'],
        output.len() > 0 ==> {
            let wrong = flipped(s, output).0;
            &&& 0 <= at < output.len()
            &&& wrong == output.update(at, wrong[at])
            &&& wrong[at] != output[at]
            &&& POOL@.contains(wrong[at] as u8)
            &&& is_ascii_chars(wrong)
        },
{
    let bytes = encode_utf8(output);
    reveal_strlit("X");
    is_ascii_chars_encode_utf8(output);
    if bytes.len() == 0 {
        assert("X"@ =~= seq!['X']);
        0
    } else {
        let i = rng::draw_below(s, 0, bytes.len()) as int;
        let symbol = other_symbol(rng::advance(s, 1), bytes[i], FLIP_TRIES as nat).0;
        lemma_other_symbol(rng::advance(s, 1), bytes[i], FLIP_TRIES as nat);
        let changed = bytes.update(i, symbol);
        let text = output.update(i, symbol as char);
        assert(output[i] as u8 == bytes[i]);
        is_ascii_chars_encode_utf8(text);
        assert(encode_utf8(text) =~= changed) by {
            assert forall|j: int| 0 <= j < changed.len() implies encode_utf8(text)[j]
                == #[trigger] changed[j] by {
                assert(text[j] as u8 == encode_utf8(text)[j]);
                assert(output[j] as u8 == bytes[j]);
            }
        }
        encode_utf8_valid_utf8(text);
        encode_utf8_decode_utf8(text);
        i
    }
}

/// The stock corruption keeps a printable output printable.
pub proof fn lemma_flip_printable(s: u64, output: Seq<char>)
    requires
        printable(output),
    ensures
        printable(flipped(s, output).0),
{
    let wrong = flipped(s, output).0;
    let at = lemma_flip_changes_one(s, output);
    if output.len() > 0 {
        let k = choose|k: int| 0 <= k < POOL@.len() && POOL@[k] == wrong[at] as u8;
        lemma_pool(k);
        assert forall|i: int| 0 <= i < wrong.len() implies ' ' <= #[trigger] wrong[i] <= '~' by {
            assert(i != at ==> wrong[i] == output[i]);
        }
    }
}

/// A rule of any kind.
pub struct BoxedRule {
    pub rule: Box<dyn Rule>,
}

impl Rule for BoxedRule {
    open spec fn model(&self) -> RuleModel {
        self.rule.model()
    }

    fn render_demo(&self, rng: &mut HarnessRng) -> (d: Demo) {
        self.rule.render_demo(rng)
    }

    fn render_query(&self, rng: &mut HarnessRng) -> (q: Query) {
        self.rule.render_query(rng)
    }

    fn verify(&self, input: &str, output: &str) -> (r: bool) {
        self.rule.verify(input, output)
    }

    fn corrupt(&self, rng: &mut HarnessRng, output: &str) -> (r: String) {
        self.rule.corrupt(rng, output)
    }

    fn demo_policy(&self) -> (r: DemoPolicy) {
        self.rule.demo_policy()
    }

    fn oracle_header(&self) -> (r: Option<String>) {
        self.rule.oracle_header()
    }
}

/// What a task is.
pub struct TaskModel {
    pub name: Seq<char>,
    pub stage: u8,
    pub policy: PolicyModel,
    /// The rule sampled from a generator state, and the state after it.
    pub rule: spec_fn(u64, Track) -> (RuleModel, u64),
}

/// A task family: samples latent rules per track.
pub trait Task: Send + Sync {
    spec fn model(&self) -> TaskModel;

    fn name(&self) -> (r: &'static str)
        ensures
            r@ == self.model().name,
    ;

    fn stage(&self) -> (r: u8)
        ensures
            r == self.model().stage,
    ;

    /// The policy of every rule that the task samples.
    fn demo_policy(&self) -> (r: DemoPolicy)
        ensures
            r@ == self.model().policy,
    ;

    fn sample_rule(&self, rng: &mut HarnessRng, track: Track) -> (r: BoxedRule)
        ensures
            (r.rule.model(), final(rng)@) == (self.model().rule)(old(rng)@, track),
            r.rule.model().ready,
    ;
}

/// A place for one value.
struct Slot<T> {
    item: T,
}

/// Central registry. One line per task in [`TaskRegistry::builtin`].
pub struct TaskRegistry {
    tasks: Vec<Slot<Box<dyn Task>>>,
}

impl View for TaskRegistry {
    type V = Seq<TaskModel>;

    closed spec fn view(&self) -> Seq<TaskModel> {
        Seq::new(self.tasks@.len(), |i: int| self.tasks@[i].item.model())
    }
}

/// The position of the first task called `name`; the number of tasks if there
/// is none.
pub open spec fn position_of(tasks: Seq<TaskModel>, name: Seq<char>) -> int
    decreases tasks.len(),
{
    if tasks.len() == 0 || tasks[0].name == name {
        0
    } else {
        1 + position_of(tasks.drop_first(), name)
    }
}

impl Default for TaskRegistry {
    /// A registry without tasks.
    fn default() -> (r: Self)
        ensures
            r@ == Seq::<TaskModel>::empty(),
    {
        let r = TaskRegistry { tasks: Vec::new() };
        assert(r@ =~= Seq::<TaskModel>::empty());
        r
    }
}

/// What [`TaskRegistry::builtin`] holds.
pub open spec fn builtin_tasks() -> Seq<TaskModel> {
    seq![
        parity::ParityTask.model(),
        dyck::DyckTask.model(),
        fst::SubstFstTask.model(),
        periodic::PeriodicTask.model(),
        copy::CopyTask.model(),
        scan::ScanTask.model(),
    ]
}

/// Every built-in task samples rules under its own policy only.
pub proof fn lemma_policies_agree(i: int, s: u64, track: Track)
    requires
        0 <= i < builtin_tasks().len(),
    ensures
        (builtin_tasks()[i].rule)(s, track).0.policy == builtin_tasks()[i].policy,
{
}

/// Task content is printable ASCII, with line feeds between the lines of a
/// prompt: every instance of a built-in task, under a protocol whose
/// separators are printable.
pub proof fn lemma_builtin_printable(
    i: int,
    p: demo::ProtocolModel,
    track: Track,
    s: u64,
    t: u64,
)
    requires
        0 <= i < builtin_tasks().len(),
        p.seps.len() > 0,
        forall|j: int| 0 <= j < p.seps.len() ==> printable(#[trigger] p.seps[j]),
    ensures
        ({
            let task = builtin_tasks()[i];
            let m = (task.rule)(s, track).0;
            let x = demo::built(p, task.name, task.stage, track, m, t).0;
            &&& forall|j: int|
                0 <= j < x.prompt.len() ==> 32 <= #[trigger] x.prompt[j] < 127 || x.prompt[j] == 10
            &&& forall|j: int| 0 <= j < x.target.len() ==> 32 <= #[trigger] x.target[j] < 127
        }),
{
    let task = builtin_tasks()[i];
    let m = (task.rule)(s, track).0;
    parity::lemma_parity_printable(track);
    dyck::lemma_dyck_printable(track);
    fst::lemma_subst_printable(track, s);
    periodic::lemma_periodic_printable(track, s);
    copy::lemma_copy_printable(track, s);
    scan::lemma_scan_printable(track);
    demo::lemma_built_printable(p, task.name, task.stage, track, m, t);
}

/// Every instance of a built-in task ships demonstrations of its own rule: all
/// of them are right by it, unless one was corrupted, and then all but one.
pub proof fn lemma_builtin_demos_right(
    i: int,
    p: demo::ProtocolModel,
    track: Track,
    s: u64,
    t: u64,
)
    requires
        0 <= i < builtin_tasks().len(),
    ensures
        ({
            let task = builtin_tasks()[i];
            let m = (task.rule)(s, track).0;
            let x = demo::built(p, task.name, task.stage, track, m, t).0;
            &&& !x.corrupted_demo ==> forall|a: int|
                0 <= a < x.demos.len() ==> right_by(m, #[trigger] x.demos[a])
            &&& forall|a: int, b: int|
                0 <= a < b < x.demos.len() ==> right_by(m, #[trigger] x.demos[a]) || right_by(
                    m,
                    #[trigger] x.demos[b],
                )
        }),
{
    let task = builtin_tasks()[i];
    let m = (task.rule)(s, track).0;
    parity::lemma_parity_demos_right(track);
    dyck::lemma_dyck_demos_right(track);
    fst::lemma_subst_demos_right(track, s);
    periodic::lemma_periodic_demos_right(track, s);
    copy::lemma_copy_demos_right(track, s);
    scan::lemma_scan_demos_right(track);
    let right = |d: DemoText| right_by(m, d);
    assert(demos_right(m));
    demo::lemma_demos_follow_rule(p, task.name, task.stage, track, m, t, right);
    let x = demo::built(p, task.name, task.stage, track, m, t).0;
    assert forall|a: int, b: int| 0 <= a < b < x.demos.len() implies right_by(
        m,
        #[trigger] x.demos[a],
    ) || right_by(m, #[trigger] x.demos[b]) by {
        assert(right(x.demos[a]) || right(x.demos[b]));
    }
    assert forall|a: int| !x.corrupted_demo && 0 <= a < x.demos.len() implies right_by(
        m,
        #[trigger] x.demos[a],
    ) by {
        assert(right(x.demos[a]));
    }
}

/// No two built-in tasks share a name: each is found under its own.
pub proof fn lemma_builtin_found(i: int)
    requires
        0 <= i < builtin_tasks().len(),
    ensures
        position_of(builtin_tasks(), builtin_tasks()[i].name) == i,
{
    reveal_strlit("parity");
    reveal_strlit("dyck1");
    reveal_strlit("subst-fst");
    reveal_strlit("periodic");
    reveal_strlit("copy-rev-rep");
    reveal_strlit("scan-tiny");
    assert("parity"@[1] == 'a' && "periodic"@[1] == 'e');
    assert("subst-fst"@[1] == 'u' && "scan-tiny"@[1] == 'c');
    assert("dyck1"@[0] == 'd' && "copy-rev-rep"@[0] == 'c');
    assert("parity"@[0] == 'p' && "periodic"@[0] == 'p');
    assert("subst-fst"@[0] == 's' && "scan-tiny"@[0] == 's');
    let all = builtin_tasks();
    lemma_position_from(all, all[i].name, 0, i);
    assert(all.skip(0) =~= all);
}

proof fn lemma_position_from(tasks: Seq<TaskModel>, name: Seq<char>, from: int, at: int)
    requires
        0 <= from <= at < tasks.len(),
        tasks[at].name == name,
        forall|j: int| from <= j < at ==> (#[trigger] tasks[j]).name != name,
    ensures
        position_of(tasks.skip(from), name) == at - from,
    decreases at - from,
{
    assert(tasks.skip(from)[0] == tasks[from]);
    if from < at {
        lemma_position_from(tasks, name, from + 1, at);
        assert(tasks.skip(from).drop_first() =~= tasks.skip(from + 1));
    }
}

/// A name is found exactly if a task has it, and then at the first such task.
pub proof fn lemma_position_of(tasks: Seq<TaskModel>, name: Seq<char>)
    ensures
        0 <= position_of(tasks, name) <= tasks.len(),
        position_of(tasks, name) < tasks.len() ==> tasks[position_of(tasks, name)].name == name,
        forall|j: int|
            0 <= j < position_of(tasks, name) ==> (#[trigger] tasks[j]).name != name,
        position_of(tasks, name) < tasks.len() <==> exists|j: int|
            0 <= j < tasks.len() && (#[trigger] tasks[j]).name == name,
    decreases tasks.len(),
{
    if tasks.len() > 0 && tasks[0].name != name {
        let rest = tasks.drop_first();
        lemma_position_of(rest, name);
        assert forall|j: int| 0 <= j < position_of(tasks, name) implies (#[trigger] tasks[j]).name
            != name by {
            if j > 0 {
                assert(tasks[j] == rest[j - 1]);
            }
        }
    }
}

/// Registering a task appends its name and changes no lookup of a name that was
/// there: a duplicate does not shadow. A new name is found at the new task, and
/// any other stays unknown.
pub proof fn lemma_register(tasks: Seq<TaskModel>, t: TaskModel, name: Seq<char>)
    ensures
        tasks.push(t).map_values(|x: TaskModel| x.name) == tasks.map_values(
            |x: TaskModel| x.name,
        ).push(t.name),
        position_of(tasks, name) < tasks.len() ==> position_of(tasks.push(t), name)
            == position_of(tasks, name) && tasks.push(t)[position_of(tasks.push(t), name)]
            == tasks[position_of(tasks, name)],
        position_of(tasks, name) == tasks.len() && t.name == name ==> position_of(
            tasks.push(t),
            name,
        ) == tasks.len() && tasks.push(t)[position_of(tasks.push(t), name)] == t,
        position_of(tasks, name) == tasks.len() && t.name != name ==> position_of(
            tasks.push(t),
            name,
        ) == tasks.push(t).len(),
        position_of(tasks, name) < tasks.len() <==> tasks.map_values(
            |x: TaskModel| x.name,
        ).contains(name),
{
    let more = tasks.push(t);
    let names = tasks.map_values(|x: TaskModel| x.name);
    let p = position_of(tasks, name);
    let q = position_of(more, name);
    lemma_position_of(tasks, name);
    lemma_position_of(more, name);
    assert(more.map_values(|x: TaskModel| x.name) =~= names.push(t.name));
    if p < tasks.len() {
        assert(more[p].name == name);
        assert(q == p) by {
            if q < p {
                assert(more[q] == tasks[q]);
            }
        }
        assert(names[p] == name);
    } else {
        if q < tasks.len() {
            assert(tasks[q] == more[q]);
        }
        if t.name == name {
            assert(more[tasks.len() as int].name == name);
        }
        if names.contains(name) {
            let j = choose|j: int| 0 <= j < names.len() && names[j] == name;
            assert(tasks[j].name == name);
        }
    }
}

impl TaskRegistry {
    /// The Stage-0 tasks.
    pub fn builtin() -> (r: Self)
        ensures
            r@ == builtin_tasks(),
    {
        let mut r: TaskRegistry = TaskRegistry::default();
        r.register(Box::new(parity::ParityTask));
        r.register(Box::new(dyck::DyckTask));
        r.register(Box::new(fst::SubstFstTask));
        r.register(Box::new(periodic::PeriodicTask));
        r.register(Box::new(copy::CopyTask));
        r.register(Box::new(scan::ScanTask));
        assert(r@ =~= builtin_tasks());
        r
    }

    pub fn register(&mut self, task: Box<dyn Task>)
        ensures
            final(self)@ == old(self)@.push(task.model()),
    {
        let slot = Slot { item: task };
        self.tasks.push(slot);
        assert(self@ =~= old(self)@.push(task.model()));
    }

    pub fn len(&self) -> (r: usize)
        ensures
            r == self@.len(),
    {
        self.tasks.len()
    }

    pub fn is_empty(&self) -> (r: bool)
        ensures
            r == (self@.len() == 0),
    {
        self.tasks.len() == 0
    }

    pub fn get(&self, name: &str) -> (r: Option<&dyn Task>)
        ensures
            r is Some <==> position_of(self@, name@) < self@.len(),
            r matches Some(t) ==> t.model() == self@[position_of(self@, name@)],
    {
        let mut i: usize = 0;
        assert(self@.skip(0) =~= self@);
        while i < self.tasks.len()
            invariant
                i <= self.tasks@.len() == self@.len(),
                position_of(self@, name@) == i + position_of(self@.skip(i as int), name@),
            decreases self.tasks@.len() - i,
        {
            let t = &*self.tasks[i].item;
            let nm: &'static str = t.name();
            assert(self@.skip(i as int)[0] == t.model());
            assert(self@.skip(i as int).drop_first() =~= self@.skip(i + 1));
            if crate::text::same(nm, name) {
                let r = Some(t);
                assert(r is Some && r->0.model() == self@[i as int]);
                return r;
            }
            i = i + 1;
        }
        None
    }

    pub fn names(&self) -> (r: Vec<&'static str>)
        ensures
            r@.map_values(|n: &'static str| n@) == self@.map_values(|t: TaskModel| t.name),
    {
        let mut out: Vec<&'static str> = Vec::new();
        let mut i: usize = 0;
        while i < self.tasks.len()
            invariant
                i <= self.tasks@.len() == self@.len(),
                out@.len() == i,
                forall|j: int| 0 <= j < i ==> (#[trigger] out@[j])@ == self@[j].name,
            decreases self.tasks@.len() - i,
        {
            out.push(self.tasks[i].item.name());
            i = i + 1;
        }
        assert(out@.map_values(|n: &'static str| n@) =~= self@.map_values(|t: TaskModel| t.name));
        out
    }
}

/// Ids are the byte values, in their order.
pub proof fn lemma_byte_ids(bytes: Seq<u8>, more: Seq<u8>, i: int)
    requires
        0 <= i < bytes.len(),
    ensures
        byte_ids(bytes).len() == bytes.len(),
        byte_ids(bytes)[i] == bytes[i],
        byte_ids(bytes + more) == byte_ids(bytes) + byte_ids(more),
{
    assert(byte_ids(bytes + more) =~= byte_ids(bytes) + byte_ids(more));
}

/// The symbols of the tracks, spelled out.
pub proof fn lemma_letters_spelled()
    ensures
        track_letters(Track::A).map_values(|b: u8| b as char) == "abc"@,
        track_letters(Track::B).map_values(|b: u8| b as char) == "xyz"@,
{
    reveal_strlit("abc");
    reveal_strlit("xyz");
    assert(track_letters(Track::A).map_values(|b: u8| b as char) =~= "abc"@);
    assert(track_letters(Track::B).map_values(|b: u8| b as char) =~= "xyz"@);
}

/// The pool of replacements, spelled out.
pub proof fn lemma_pool_spelled()
    ensures
        POOL@.map_values(|b: u8| b as char) == "01ab()[]+-*"@,
{
    reveal_strlit("01ab()[]+-*");
    assert(POOL@.map_values(|b: u8| b as char) =~= "01ab()[]+-*"@);
}

/// The built-in tasks: their names, in the order of registration, and the stage
/// that all of them belong to.
pub proof fn lemma_builtin_listed()
    ensures
        builtin_tasks().map_values(|t: TaskModel| t.name) == seq![
            "parity"@,
            "dyck1"@,
            "subst-fst"@,
            "periodic"@,
            "copy-rev-rep"@,
            "scan-tiny"@,
        ],
        forall|i: int| 0 <= i < builtin_tasks().len() ==> (#[trigger] builtin_tasks()[i]).stage == 0,
        forall|i: int|
            0 <= i < builtin_tasks().len() ==> ((#[trigger] builtin_tasks()[i]).policy
                == PolicyModel::ExcludeAnswer <==> i != 0),
{
    assert(builtin_tasks().map_values(|t: TaskModel| t.name) =~= seq![
        "parity"@,
        "dyck1"@,
        "subst-fst"@,
        "periodic"@,
        "copy-rev-rep"@,
        "scan-tiny"@,
    ]);
}

/// Where none of the first `n` draws gives another symbol than `b`, the search
/// goes on from there.
proof fn lemma_other_symbol_skips(s: u64, b: u8, tries: nat, n: nat)
    requires
        n <= tries,
        forall|j: nat| j < n ==> POOL@[(#[trigger] rng::draw(s, j) % 11) as int] == b,
    ensures
        other_symbol(s, b, tries) == other_symbol(rng::advance(s, n), b, (tries - n) as nat),
    decreases n,
{
    rng::lemma_advance_adds(s, 0, 0);
    if n > 0 {
        let m = (n - 1) as nat;
        lemma_other_symbol_skips(s, b, tries, m);
        rng::lemma_next_draw(s, m);
        assert(POOL@[(rng::draw(s, m) % 11) as int] == b);
    }
}

/// The stock corruption, draw by draw: the first one points at the byte to
/// replace; the next ones at symbols of the pool, and the first that differs
/// from that byte replaces it (draw number `n` here). Nothing else is drawn.
pub proof fn lemma_flip_draws(s: u64, output: Seq<char>, n: nat)
    requires
        encode_utf8(output).len() > 0,
        n <= 16,
        ({
            let bytes = encode_utf8(output);
            let b = bytes[(rng::draw(s, 0) as nat % bytes.len()) as int];
            &&& POOL@[(rng::draw(s, n + 1) % 11) as int] != b
            &&& forall|j: nat|
                j < n ==> POOL@[(#[trigger] rng::draw(s, j + 1) % 11) as int] == b
        }),
    ensures
        ({
            let bytes = encode_utf8(output);
            let i = (rng::draw(s, 0) as nat % bytes.len()) as int;
            let changed = bytes.update(i, POOL@[(rng::draw(s, n + 1) % 11) as int]);
            let (wrong, after) = flipped(s, output);
            &&& after == rng::advance(s, n + 2)
            &&& valid_utf8(changed) ==> encode_utf8(wrong) == changed
            &&& !valid_utf8(changed) ==> wrong == seq!['X']
        }),
{
    let bytes = encode_utf8(output);
    let i = rng::draw_below(s, 0, bytes.len()) as int;
    let b = bytes[i];
    let s1 = rng::advance(s, 1);
    rng::lemma_advance_adds(s, 1, n);
    assert forall|j: nat| j < n implies POOL@[(#[trigger] rng::draw(s1, j) % 11) as int] == b by {
        assert(rng::draw(s1, j) == rng::draw(s, j + 1));
    }
    lemma_other_symbol_skips(s1, b, 16, n);
    let s2 = rng::advance(s, n + 1);
    rng::lemma_next_draw(s, n + 1);
    assert(rng::draw(s2, 0) == rng::draw(s, n + 1));
    let symbol = POOL@[(rng::draw(s, n + 1) % 11) as int];
    assert(other_symbol(s2, b, (16 - n) as nat) == (symbol, rng::advance(s2, 1)));
    let changed = bytes.update(i, symbol);
    if valid_utf8(changed) {
        decode_utf8_encode_utf8(changed);
    } else {
        reveal_strlit("X");
        assert("X"@ =~= seq!['X']);
    }
}

/// Where seventeen draws in a row point at the symbol that is there already,
/// the one behind it in the pool replaces it, the first behind the last.
pub proof fn lemma_flip_gives_up(s: u64, output: Seq<char>)
    requires
        encode_utf8(output).len() > 0,
        ({
            let bytes = encode_utf8(output);
            let b = bytes[(rng::draw(s, 0) as nat % bytes.len()) as int];
            forall|j: nat| j < 17 ==> POOL@[(#[trigger] rng::draw(s, j + 1) % 11) as int] == b
        }),
    ensures
        ({
            let bytes = encode_utf8(output);
            let i = (rng::draw(s, 0) as nat % bytes.len()) as int;
            let changed = bytes.update(i, POOL@[((rng::draw(s, 17) % 11 + 1) % 11) as int]);
            let (wrong, after) = flipped(s, output);
            &&& after == rng::advance(s, 18)
            &&& valid_utf8(changed) ==> encode_utf8(wrong) == changed
            &&& !valid_utf8(changed) ==> wrong == seq!['X']
        }),
{
    let bytes = encode_utf8(output);
    let i = rng::draw_below(s, 0, bytes.len()) as int;
    let b = bytes[i];
    let s1 = rng::advance(s, 1);
    rng::lemma_advance_adds(s, 1, 16);
    assert forall|j: nat| j < 16 implies POOL@[(#[trigger] rng::draw(s1, j) % 11) as int] == b by {
        assert(rng::draw(s1, j) == rng::draw(s, j + 1));
    }
    lemma_other_symbol_skips(s1, b, 16, 16);
    let s2 = rng::advance(s, 17);
    rng::lemma_next_draw(s, 17);
    assert(rng::draw(s2, 0) == rng::draw(s, 16 + 1));
    let symbol = pool_after((rng::draw(s, 17) % 11) as int);
    assert(other_symbol(s2, b, 0) == (symbol, rng::advance(s2, 1)));
    let changed = bytes.update(i, symbol);
    if valid_utf8(changed) {
        decode_utf8_encode_utf8(changed);
    } else {
        reveal_strlit("X");
        assert("X"@ =~= seq!['X']);
    }
}

} // verus!
