//! Dyck-1 bracket completion: close the open stack.
//!
//! Input is a balanced-prefix over `()`, target is exactly the closers that
//! balance it. Regime split: demo prefixes 2..8 chars, query prefixes 8..24.
//! Track split: A caps nesting depth at 3, B allows 4..6 (deeper nesting
//! unseen in training).

use vstd::prelude::*;

use super::demo;
use super::rate::{Rate, CUTOFF_FIFTY};
use super::rng;
use super::rng::{HarnessRng, GAMMA};
use super::{flip_symbol, BoxedRule, Demo, DemoPolicy, Query, Rule, Task, Track};
use super::{DemoText, PolicyModel, QueryText, RuleModel, TaskModel};

verus! {

/// The open depth after reading `s`. Everything but `(` closes, and closing
/// at depth zero does nothing.
pub open spec fn level(s: Seq<char>) -> nat
    decreases s.len(),
{
    if s.len() == 0 {
        0
    } else if s.last() == '(' {
        level(s.drop_last()) + 1
    } else if level(s.drop_last()) > 0 {
        (level(s.drop_last()) - 1) as nat
    } else {
        0
    }
}

/// The greatest open depth while reading `s`.
pub open spec fn peak(s: Seq<char>) -> nat
    decreases s.len(),
{
    if s.len() == 0 {
        0
    } else if level(s) > peak(s.drop_last()) {
        level(s)
    } else {
        peak(s.drop_last())
    }
}

/// Whether `s` is made of brackets and closes none that is not open.
pub open spec fn sound(s: Seq<char>) -> bool
    decreases s.len(),
{
    s.len() == 0 || (sound(s.drop_last()) && (s.last() == '(' || (s.last() == ')' && level(
        s.drop_last(),
    ) > 0)))
}

/// Whether every bracket of `s` has its partner.
pub open spec fn is_balanced(s: Seq<char>) -> bool {
    sound(s) && level(s) == 0
}

/// `n` closing brackets.
pub open spec fn closers(n: nat) -> Seq<char> {
    Seq::new(n, |i: int| ')')
}

/// The closing brackets that `input` lacks.
pub open spec fn completed(input: Seq<char>) -> Seq<char> {
    closers(level(input))
}

/// The stack walk from generator state `s` on: `text` has been written and
/// `depth` brackets are open; every step writes one bracket until `target` of
/// them are there, then what is open is closed. A coin decides wherever
/// neither opening nor closing is forced.
pub open spec fn walk(s: u64, text: Seq<char>, depth: nat, target: nat, cap: nat) -> (Seq<char>, u64)
    decreases target - text.len(),
{
    if text.len() >= target {
        (text + closers(depth), s)
    } else if depth == 0 {
        walk(s, text.push('('), 1, target, cap)
    } else if depth < cap && text.len() + depth < target {
        if rng::draw(s, 0) < CUTOFF_FIFTY {
            walk(rng::advance(s, 1), text.push('('), depth + 1, target, cap)
        } else {
            walk(rng::advance(s, 1), text.push(')'), (depth - 1) as nat, target, cap)
        }
    } else {
        walk(s, text.push(')'), (depth - 1) as nat, target, cap)
    }
}

/// One attempt at a balanced string, and the state after it: a length is
/// drawn, then the walk runs.
pub open spec fn attempt(s: u64, cap: nat, lo: nat, hi: nat) -> (Seq<char>, u64) {
    let target = lo + rng::draw_below(s, 0, (hi - lo) as nat);
    walk(rng::advance(s, 1), Seq::empty(), 0, target, cap)
}

/// Whether an attempt is kept.
pub open spec fn kept(text: Seq<char>, floor: nat, lo: nat) -> bool {
    text.len() >= lo && peak(text) >= floor
}

/// Whether one of the first `n + 1` attempts is kept.
pub open spec fn settles_within(s: u64, cap: nat, floor: nat, lo: nat, hi: nat, n: nat) -> bool
    decreases n,
{
    let (text, after) = attempt(s, cap, lo, hi);
    kept(text, floor, lo) || (n > 0 && settles_within(after, cap, floor, lo, hi, (n - 1) as nat))
}

/// Whether an attempt is kept sooner or later.
pub open spec fn settles(s: u64, cap: nat, floor: nat, lo: nat, hi: nat) -> bool {
    exists|n: nat| #[trigger] settles_within(s, cap, floor, lo, hi, n)
}

/// Whether an attempt is kept sooner or later, wherever the stream starts.
pub open spec fn always_settles(cap: nat, floor: nat, lo: nat, hi: nat) -> bool {
    forall|s: u64| #[trigger] settles(s, cap, floor, lo, hi)
}

/// The first of `n + 1` attempts that is kept, and the state after it.
pub open spec fn first_kept(s: u64, cap: nat, floor: nat, lo: nat, hi: nat, n: nat) -> (
    Seq<char>,
    u64,
)
    decreases n,
{
    let (text, after) = attempt(s, cap, lo, hi);
    if kept(text, floor, lo) || n == 0 {
        (text, after)
    } else {
        first_kept(after, cap, floor, lo, hi, (n - 1) as nat)
    }
}

/// The balanced string drawn from state `s`, and the state after it.
pub open spec fn drawn_balanced(s: u64, cap: nat, floor: nat, lo: nat, hi: nat) -> (
    Seq<char>,
    u64,
) {
    let n = choose|n: nat| #[trigger] settles_within(s, cap, floor, lo, hi, n);
    first_kept(s, cap, floor, lo, hi, n)
}

/// The lengths in `lo..hi` of the prefixes of `s` that leave something open.
pub open spec fn open_cuts(s: Seq<char>, lo: nat, hi: nat) -> Seq<int>
    decreases s.len(),
{
    if s.len() == 0 {
        Seq::empty()
    } else if level(s) > 0 && lo <= s.len() < hi {
        open_cuts(s.drop_last(), lo, hi).push(s.len() as int)
    } else {
        open_cuts(s.drop_last(), lo, hi)
    }
}

/// The prefix of length `lo..hi` drawn from state `s`, and the state after it.
pub open spec fn drawn_prefix(s: u64, cap: nat, floor: nat, lo: nat, hi: nat) -> (Seq<char>, u64) {
    let (full, after) = drawn_balanced(s, cap, floor, lo + 2, hi + 4);
    let cuts = open_cuts(full, lo, hi);
    (full.take(cuts[rng::draw_below(after, 0, cuts.len()) as int]), rng::advance(after, 1))
}

/// What the rule with nesting depth `floor` to `cap` is.
pub open spec fn dyck_model(cap: nat, floor: nat) -> RuleModel {
    RuleModel {
        ready: always_settles(cap, floor, 4, 12) && always_settles(cap, floor, 10, 28),
        demo: |s: u64|
            {
                let (input, after) = drawn_prefix(s, cap, floor, 2, 8);
                (DemoText { input, output: completed(input) }, after)
            },
        query: |s: u64|
            {
                let (input, after) = drawn_prefix(s, cap, floor, 8, 24);
                (QueryText { input, target: completed(input) }, after)
            },
        decides: |input: Seq<char>, output: Seq<char>| true,
        accepts: |input: Seq<char>, output: Seq<char>|
            crate::text::trimmed(output) == completed(input),
        corrupted: |s: u64, output: Seq<char>| super::flipped(s, output),
        policy: PolicyModel::ExcludeAnswer,
        header: None,
    }
}

/// The greatest nesting depth of a track.
pub open spec fn track_cap(track: Track) -> nat {
    match track {
        Track::A => 3,
        Track::B => 6,
    }
}

/// The nesting depth that every string of a track reaches.
pub open spec fn track_floor(track: Track) -> nat {
    match track {
        Track::A => 1,
        Track::B => 4,
    }
}

/// How many attempts are looked at does not matter once one is kept.
pub proof fn lemma_first_kept(s: u64, cap: nat, floor: nat, lo: nat, hi: nat, n: nat, m: nat)
    requires
        settles_within(s, cap, floor, lo, hi, n),
        settles_within(s, cap, floor, lo, hi, m),
    ensures
        first_kept(s, cap, floor, lo, hi, n) == first_kept(s, cap, floor, lo, hi, m),
        kept(first_kept(s, cap, floor, lo, hi, n).0, floor, lo),
    decreases n,
{
    let (text, after) = attempt(s, cap, lo, hi);
    if !kept(text, floor, lo) {
        lemma_first_kept(after, cap, floor, lo, hi, (n - 1) as nat, (m - 1) as nat);
    }
}

/// What is written stays: a walk only goes on from its text. If the text so
/// far is sound with `depth` open, the result is balanced, at least `target`
/// long, and no deeper than the cap (one level is always allowed).
proof fn lemma_walk(s: u64, text: Seq<char>, depth: nat, target: nat, cap: nat)
    requires
        sound(text),
        level(text) == depth,
        peak(text) <= cap || peak(text) <= 1,
    ensures
        ({
            let r = walk(s, text, depth, target, cap).0;
            &&& is_balanced(r)
            &&& peak(r) >= peak(text)
            &&& peak(r) <= cap || peak(r) <= 1
            &&& r.len() >= target
            &&& r.len() >= text.len()
            &&& r.take(text.len() as int) == text
        }),
    decreases target - text.len(),
{
    let opened = text.push('(');
    let shut = text.push(')');
    assert(opened.drop_last() =~= text);
    assert(shut.drop_last() =~= text);
    let r = walk(s, text, depth, target, cap).0;
    if text.len() >= target {
        lemma_close(text, depth);
        assert(r.take(text.len() as int) =~= text);
    } else if depth == 0 {
        lemma_walk(s, opened, 1, target, cap);
        assert(r.take(text.len() as int) =~= r.take(opened.len() as int).take(text.len() as int));
        assert(opened.take(text.len() as int) =~= text);
    } else {
        let after = rng::advance(s, 1);
        if depth < cap && text.len() + depth < target {
            if rng::draw(s, 0) < CUTOFF_FIFTY {
                lemma_walk(after, opened, depth + 1, target, cap);
                assert(r.take(text.len() as int) =~= r.take(opened.len() as int).take(
                    text.len() as int,
                ));
                assert(opened.take(text.len() as int) =~= text);
            } else {
                lemma_walk(after, shut, (depth - 1) as nat, target, cap);
                assert(r.take(text.len() as int) =~= r.take(shut.len() as int).take(
                    text.len() as int,
                ));
                assert(shut.take(text.len() as int) =~= text);
            }
        } else {
            lemma_walk(s, shut, (depth - 1) as nat, target, cap);
            assert(r.take(text.len() as int) =~= r.take(shut.len() as int).take(text.len() as int));
            assert(shut.take(text.len() as int) =~= text);
        }
    }
}

/// Closing what is open balances a sound text and goes no deeper.
proof fn lemma_close(text: Seq<char>, depth: nat)
    requires
        sound(text),
        level(text) >= depth,
    ensures
        sound(text + closers(depth)),
        level(text + closers(depth)) == level(text) - depth,
        peak(text + closers(depth)) == peak(text),
    decreases depth,
{
    if depth == 0 {
        assert(text + closers(0) =~= text);
    } else {
        let all = text + closers(depth);
        let before = text + closers((depth - 1) as nat);
        lemma_close(text, (depth - 1) as nat);
        assert(all.drop_last() =~= before);
        assert(all.last() == ')');
        lemma_peak_covers(before);
    }
}

/// The peak is at least the level that was reached.
proof fn lemma_peak_covers(s: Seq<char>)
    ensures
        peak(s) >= level(s),
{
}

/// The peak of a text is at least that of any of its prefixes.
proof fn lemma_peak_prefix(s: Seq<char>, n: int)
    requires
        0 <= n <= s.len(),
    ensures
        peak(s) >= peak(s.take(n)),
    decreases s.len(),
{
    if n == s.len() {
        assert(s.take(n) =~= s);
    } else {
        lemma_peak_prefix(s.drop_last(), n);
        assert(s.drop_last().take(n) =~= s.take(n));
    }
}

/// A walk that can still close in time ends at most one bracket behind its
/// target.
proof fn lemma_walk_len(s: u64, text: Seq<char>, depth: nat, target: nat, cap: nat)
    requires
        text.len() + depth <= target + 1,
    ensures
        walk(s, text, depth, target, cap).0.len() <= target + 1,
    decreases target - text.len(),
{
    if text.len() < target {
        let after = rng::advance(s, 1);
        if depth == 0 {
            lemma_walk_len(s, text.push('('), 1, target, cap);
        } else if depth < cap && text.len() + depth < target {
            if rng::draw(s, 0) < CUTOFF_FIFTY {
                lemma_walk_len(after, text.push('('), depth + 1, target, cap);
            } else {
                lemma_walk_len(after, text.push(')'), (depth - 1) as nat, target, cap);
            }
        } else {
            lemma_walk_len(s, text.push(')'), (depth - 1) as nat, target, cap);
        }
    }
}

/// An attempt gives a balanced string of even length from `lo` to `hi` that is
/// no deeper than the cap (one level is always allowed); it opens something if
/// `lo` is not zero.
pub proof fn lemma_attempt(s: u64, cap: nat, lo: nat, hi: nat)
    requires
        lo < hi,
    ensures
        ({
            let text = attempt(s, cap, lo, hi).0;
            &&& is_balanced(text)
            &&& lo <= text.len() <= hi
            &&& text.len() % 2 == 0
            &&& peak(text) <= cap || peak(text) <= 1
            &&& lo > 0 ==> peak(text) >= 1
        }),
{
    let target = lo + rng::draw_below(s, 0, (hi - lo) as nat);
    let after = rng::advance(s, 1);
    let none = Seq::<char>::empty();
    lemma_walk(after, none, 0, target, cap);
    lemma_walk_len(after, none, 0, target, cap);
    lemma_level_parity(attempt(s, cap, lo, hi).0);
    if lo > 0 {
        let first = none.push('(');
        assert(first.drop_last() =~= none);
        assert(sound(none) && level(none) == 0 && peak(none) == 0);
        lemma_walk(after, first, 1, target, cap);
    }
}

/// As many brackets are open as were written, up to pairs.
proof fn lemma_level_parity(s: Seq<char>)
    requires
        sound(s),
    ensures
        level(s) % 2 == s.len() % 2,
    decreases s.len(),
{
    if s.len() > 0 {
        lemma_level_parity(s.drop_last());
    }
}

proof fn lemma_sound_prefix(s: Seq<char>, p: int)
    requires
        sound(s),
        0 <= p <= s.len(),
    ensures
        sound(s.take(p)),
    decreases s.len(),
{
    if p == s.len() {
        assert(s.take(p) =~= s);
    } else {
        lemma_sound_prefix(s.drop_last(), p);
        assert(s.drop_last().take(p) =~= s.take(p));
    }
}

/// A length that leaves something open is among the cuts.
proof fn lemma_cut_listed(s: Seq<char>, lo: nat, hi: nat, p: int)
    requires
        0 < p <= s.len(),
        lo <= p < hi,
        level(s.take(p)) > 0,
    ensures
        open_cuts(s, lo, hi).len() > 0,
    decreases s.len(),
{
    if p == s.len() {
        assert(s.take(p) =~= s);
    } else {
        assert(s.drop_last().take(p) =~= s.take(p));
        lemma_cut_listed(s.drop_last(), lo, hi, p);
    }
}

/// Every cut of a sound string is a length in `lo..hi` after which something
/// is open; a string that goes beyond `lo + 1` has one, since after an odd
/// number of brackets something always is.
proof fn lemma_open_cuts(s: Seq<char>, lo: nat, hi: nat)
    requires
        sound(s),
    ensures
        s.len() > lo + 1 && lo + 1 < hi ==> open_cuts(s, lo, hi).len() > 0,
        forall|i: int|
            0 <= i < open_cuts(s, lo, hi).len() ==> {
                let p = #[trigger] open_cuts(s, lo, hi)[i];
                &&& 0 < p <= s.len()
                &&& lo <= p < hi
                &&& level(s.take(p)) > 0
                &&& sound(s.take(p))
            },
    decreases s.len(),
{
    if s.len() > lo + 1 && lo + 1 < hi {
        let p: int = if lo % 2 == 1 {
            lo as int
        } else {
            (lo + 1) as int
        };
        lemma_sound_prefix(s, p);
        lemma_level_parity(s.take(p));
        lemma_cut_listed(s, lo, hi, p);
    }
    if s.len() > 0 {
        let t = s.drop_last();
        lemma_open_cuts(t, lo, hi);
        assert(s.take(s.len() as int) =~= s);
        assert forall|i: int| 0 <= i < open_cuts(s, lo, hi).len() implies {
            let p = #[trigger] open_cuts(s, lo, hi)[i];
            &&& 0 < p <= s.len()
            &&& lo <= p < hi
            &&& level(s.take(p)) > 0
            &&& sound(s.take(p))
        } by {
            let p = open_cuts(s, lo, hi)[i];
            if i < open_cuts(t, lo, hi).len() {
                assert(p == open_cuts(t, lo, hi)[i]);
                assert(t.take(p) =~= s.take(p));
            }
        }
    }
}

pub struct DyckTask;

impl Task for DyckTask {
    open spec fn model(&self) -> TaskModel {
        TaskModel {
            name: "dyck1"@,
            stage: 0,
            policy: PolicyModel::ExcludeAnswer,
            rule: |s: u64, track: Track| (dyck_model(track_cap(track), track_floor(track)), s),
        }
    }

    fn name(&self) -> (r: &'static str) {
        "dyck1"
    }

    fn stage(&self) -> (r: u8) {
        0
    }

    fn demo_policy(&self) -> (r: DemoPolicy) {
        DemoPolicy::ExcludeAnswer
    }

    fn sample_rule(&self, _rng: &mut HarnessRng, track: Track) -> (r: BoxedRule) {
        let max_depth: usize = match track {
            Track::A => 3,
            Track::B => 6,
        };
        let min_depth: usize = match track {
            Track::A => 1,
            Track::B => 4,
        };
        proof {
            lemma_dyck_ready(track_cap(track), track_floor(track));
        }
        BoxedRule { rule: Box::new(DyckRule { max_depth, min_depth }) }
    }
}

pub struct DyckRule {
    pub max_depth: usize,
    pub min_depth: usize,
}

impl DyckRule {
    /// One attempt: a depth-capped stack walk to a drawn length.
    fn stack_walk(&self, rng: &mut HarnessRng, lo: usize, hi: usize) -> (r: Vec<char>)
        requires
            lo < hi,
        ensures
            (r@, final(rng)@) == attempt(old(rng)@, self.max_depth as nat, lo as nat, hi as nat),
    {
        let ghost start = rng@;
        let cap: usize = self.max_depth;
        let target: usize = rng.range(lo, hi);
        let mut s: Vec<char> = Vec::new();
        let mut depth: usize = 0;
        while s.len() < target
            invariant
                cap == self.max_depth,
                depth <= s@.len(),
                attempt(start, cap as nat, lo as nat, hi as nat) == walk(
                    rng@,
                    s@,
                    depth as nat,
                    target as nat,
                    cap as nat,
                ),
            decreases target - s@.len(),
        {
            let can_open: bool = depth < cap;
            let must_close: bool = depth > 0 && (depth >= target - s.len() || !can_open);
            if depth == 0 || (can_open && !must_close && rng.prob(Rate { cutoff: CUTOFF_FIFTY })) {
                s.push('(');
                depth = depth + 1;
            } else {
                s.push(')');
                depth = depth - 1;
            }
        }
        let ghost text = s@;
        let ghost open = depth as nat;
        while depth > 0
            invariant
                depth <= open,
                s@ =~= text + closers((open - depth) as nat),
            decreases depth,
        {
            s.push(')');
            depth = depth - 1;
        }
        s
    }

    /// Random balanced string via depth-capped stack walk.
    fn balanced(&self, rng: &mut HarnessRng, lo: usize, hi: usize) -> (r: Vec<char>)
        requires
            lo < hi,
            settles(
                old(rng)@,
                self.max_depth as nat,
                self.min_depth as nat,
                lo as nat,
                hi as nat,
            ),
        ensures
            (r@, final(rng)@) == drawn_balanced(
                old(rng)@,
                self.max_depth as nat,
                self.min_depth as nat,
                lo as nat,
                hi as nat,
            ),
    {
        let ghost cap = self.max_depth as nat;
        let ghost floor = self.min_depth as nat;
        let ghost start = rng@;
        let ghost mut left = choose|n: nat| #[trigger]
            settles_within(start, cap, floor, lo as nat, hi as nat, n);
        let ghost found = drawn_balanced(start, cap, floor, lo as nat, hi as nat);
        loop
            invariant
                lo < hi,
                cap == self.max_depth,
                floor == self.min_depth,
                settles_within(rng@, cap, floor, lo as nat, hi as nat, left),
                first_kept(rng@, cap, floor, lo as nat, hi as nat, left) == found,
                found == drawn_balanced(old(rng)@, cap, floor, lo as nat, hi as nat),
            decreases left,
        {
            let s: Vec<char> = self.stack_walk(rng, lo, hi);
            if s.len() >= lo && depth_of(&s) >= self.min_depth {
                return s;
            }
            proof {
                left = (left - 1) as nat;
            }
        }
    }

    /// The closing brackets that `input` lacks.
    pub fn completion(input: &str) -> (r: String)
        ensures
            r@ == completed(input@),
    {
        let cs: Vec<char> = crate::text::chars_of(input);
        let n: usize = depth_after(&cs);
        let mut out: String = String::new();
        let mut i: usize = 0;
        while i < n
            invariant
                i <= n,
                out@ =~= closers(i as nat),
            decreases n - i,
        {
            out.push(')');
            i = i + 1;
        }
        out
    }

    /// A prefix of a random balanced string, `lo..hi` long, and the closers it
    /// lacks.
    fn prefix(&self, rng: &mut HarnessRng, lo: usize, hi: usize) -> (r: (String, String))
        requires
            lo + 1 < hi < usize::MAX - 4,
            settles(
                old(rng)@,
                self.max_depth as nat,
                self.min_depth as nat,
                (lo + 2) as nat,
                (hi + 4) as nat,
            ),
        ensures
            (r.0@, final(rng)@) == drawn_prefix(
                old(rng)@,
                self.max_depth as nat,
                self.min_depth as nat,
                lo as nat,
                hi as nat,
            ),
            r.1@ == completed(r.0@),
    {
        // Cut only where the open depth is > 0: guarantees a non-empty
        // completion (empty targets would poison training batches).
        let full: Vec<char> = self.balanced(rng, lo + 2, hi + 4);
        proof {
            lemma_drawn_balanced(
                old(rng)@,
                self.max_depth as nat,
                self.min_depth as nat,
                (lo + 2) as nat,
                (hi + 4) as nat,
            );
            lemma_open_cuts(full@, lo as nat, hi as nat);
        }
        let mut cuts: Vec<usize> = Vec::new();
        let mut depth: usize = 0;
        let mut i: usize = 0;
        while i < full.len()
            invariant
                i <= full@.len(),
                depth == level(full@.take(i as int)),
                depth <= i,
                cuts@.map_values(|p: usize| p as int) =~= open_cuts(
                    full@.take(i as int),
                    lo as nat,
                    hi as nat,
                ),
            decreases full@.len() - i,
        {
            assert(full@.take(i + 1).drop_last() =~= full@.take(i as int));
            if full[i] == '(' {
                depth = depth + 1;
            } else if depth > 0 {
                depth = depth - 1;
            }
            i = i + 1;
            if depth > 0 && lo <= i && i < hi {
                cuts.push(i);
            }
        }
        assert(full@.take(i as int) =~= full@);
        // After an odd number of brackets the depth is always > 0.
        let ghost after = rng@;
        assert(cuts@.len() == open_cuts(full@, lo as nat, hi as nat).len());
        let cut: usize = *rng.pick(&cuts);
        proof {
            let j = rng::draw_below(after, 0, cuts@.len()) as int;
            assert(cuts@.map_values(|p: usize| p as int)[j] == cuts@[j] as int);
            assert(0 < open_cuts(full@, lo as nat, hi as nat)[j] <= full@.len());
        }
        let head: Vec<char> = crate::text::copy_range(&full, 0, cut);
        assert(head@ =~= full@.take(cut as int));
        let input: String = crate::text::from_chars(&head);
        let output: String = DyckRule::completion(input.as_str());
        (input, output)
    }
}

/// The open depth after `s`.
fn depth_after(s: &[char]) -> (r: usize)
    ensures
        r == level(s@),
{
    let mut depth: usize = 0;
    let mut i: usize = 0;
    while i < s.len()
        invariant
            i <= s@.len(),
            depth <= i,
            depth == level(s@.take(i as int)),
        decreases s@.len() - i,
    {
        assert(s@.take(i + 1).drop_last() =~= s@.take(i as int));
        if s[i] == '(' {
            depth = depth + 1;
        } else if depth > 0 {
            depth = depth - 1;
        }
        i = i + 1;
    }
    assert(s@.take(i as int) =~= s@);
    depth
}

/// The greatest open depth in `s`.
fn depth_of(s: &[char]) -> (r: usize)
    ensures
        r == peak(s@),
{
    let mut depth: usize = 0;
    let mut max: usize = 0;
    let mut i: usize = 0;
    while i < s.len()
        invariant
            i <= s@.len(),
            depth <= i,
            depth == level(s@.take(i as int)),
            max == peak(s@.take(i as int)),
        decreases s@.len() - i,
    {
        assert(s@.take(i + 1).drop_last() =~= s@.take(i as int));
        proof {
            lemma_peak_covers(s@.take(i as int));
        }
        if s[i] == '(' {
            depth = depth + 1;
            if depth > max {
                max = depth;
            }
        } else if depth > 0 {
            depth = depth - 1;
        }
        i = i + 1;
    }
    assert(s@.take(i as int) =~= s@);
    max
}

impl Rule for DyckRule {
    open spec fn model(&self) -> RuleModel {
        dyck_model(self.max_depth as nat, self.min_depth as nat)
    }

    fn render_demo(&self, rng: &mut HarnessRng) -> (d: Demo) {
        let (input, output) = self.prefix(rng, 2, 8);
        Demo { input, output }
    }

    fn render_query(&self, rng: &mut HarnessRng) -> (q: Query) {
        let (input, target) = self.prefix(rng, 8, 24);
        Query { input, target }
    }

    fn verify(&self, input: &str, output: &str) -> (r: bool) {
        let got: Vec<char> = crate::text::trim(output);
        let want: Vec<char> = crate::text::chars_of(DyckRule::completion(input).as_str());
        crate::text::same_chars(&got, &want)
    }

    fn corrupt(&self, rng: &mut HarnessRng, output: &str) -> (r: String) {
        flip_symbol(rng, output)
    }

    fn demo_policy(&self) -> (r: DemoPolicy) {
        DemoPolicy::ExcludeAnswer
    }

    fn oracle_header(&self) -> (r: Option<String>) {
        None
    }
}

/// Wherever the attempts settle, they settle on a balanced string of even length
/// from `lo` to `hi` that reaches the floor without exceeding the cap (one level
/// is always allowed).
pub proof fn lemma_drawn_balanced(s: u64, cap: nat, floor: nat, lo: nat, hi: nat)
    requires
        lo < hi,
        settles(s, cap, floor, lo, hi),
    ensures
        ({
            let text = drawn_balanced(s, cap, floor, lo, hi).0;
            &&& is_balanced(text)
            &&& lo <= text.len() <= hi
            &&& text.len() % 2 == 0
            &&& peak(text) >= floor
            &&& peak(text) <= cap || peak(text) <= 1
        }),
{
    let n = choose|n: nat| #[trigger] settles_within(s, cap, floor, lo, hi, n);
    lemma_first_kept_balanced(s, cap, floor, lo, hi, n);
}

proof fn lemma_first_kept_balanced(s: u64, cap: nat, floor: nat, lo: nat, hi: nat, n: nat)
    requires
        lo < hi,
        settles_within(s, cap, floor, lo, hi, n),
    ensures
        ({
            let text = first_kept(s, cap, floor, lo, hi, n).0;
            &&& is_balanced(text)
            &&& kept(text, floor, lo)
            &&& text.len() <= hi
            &&& text.len() % 2 == 0
            &&& peak(text) <= cap || peak(text) <= 1
        }),
    decreases n,
{
    lemma_attempt(s, cap, lo, hi);
    let (text, after) = attempt(s, cap, lo, hi);
    if !kept(text, floor, lo) {
        lemma_first_kept_balanced(after, cap, floor, lo, hi, (n - 1) as nat);
    }
}

/// A generator state that starts a lucky run: [`RUN`] draws in a row that say
/// "open" as coins and a length of at least 7 as lengths.
const LUCKY: u64 = 1445;

/// The length of the lucky run.
const RUN: u64 = 7;

proof fn lemma_scramble(z: u64, x: u64, p: u64, y: u64, q: u64, r: u64)
    requires
        x == z ^ (z >> 30),
        p == (x * rng::MIX_A) % rng::period(),
        y == p ^ (p >> 27),
        q == (y * rng::MIX_B) % rng::period(),
        r == q ^ (q >> 31),
    ensures
        rng::scramble(z) == r,
{
}

proof fn lemma_run_states()
    ensures
        rng::advance(LUCKY, 1) == 0x9e37_79b9_7f4a_81bau64,
        rng::advance(LUCKY, 2) == 0x3c6e_f372_fe94_fdcfu64,
        rng::advance(LUCKY, 3) == 0xdaa6_6d2c_7ddf_79e4u64,
        rng::advance(LUCKY, 4) == 0x78dd_e6e5_fd29_f5f9u64,
        rng::advance(LUCKY, 5) == 0x1715_609f_7c74_720eu64,
        rng::advance(LUCKY, 6) == 0xb54c_da58_fbbe_ee23u64,
        rng::advance(LUCKY, 7) == 0x5384_5412_7b09_6a38u64,
{
}

/// The run is lucky throughout.
proof fn lemma_run(i: nat)
    requires
        i < RUN,
    ensures
        rng::draw(LUCKY, i) < CUTOFF_FIFTY,
        rng::draw(LUCKY, i) % 8 >= 3,
{
    assert(0x9e37_79b9_7f4a_81bau64 ^ (0x9e37_79b9_7f4a_81bau64 >> 30) == 0x9e37_79bb_0797_675fu64
        && 0x782c_f48c_607d_aea7u64 ^ (0x782c_f48c_607d_aea7u64 >> 27) == 0x782c_f483_65e3_3f2bu64
        && 0x4429_f3fa_e707_d779u64 ^ (0x4429_f3fa_e707_d779u64 >> 31) == 0x4429_f3fa_6f54_308cu64
        && 0x3c6e_f372_fe94_fdcfu64 ^ (0x3c6e_f372_fe94_fdcfu64 >> 30) == 0x3c6e_f372_0f2f_3004u64
        && 0x41fa_31fd_629d_46e4u64 ^ (0x41fa_31fd_629d_46e4u64 >> 27) == 0x41fa_31f5_5ddb_7948u64
        && 0x4352_8813_4a4e_1d18u64 ^ (0x4352_8813_4a4e_1d18u64 >> 31) == 0x4352_8813_cceb_0d3eu64
        && 0xdaa6_6d2c_7ddf_79e4u64 ^ (0xdaa6_6d2c_7ddf_79e4u64 >> 30) == 0xdaa6_6d2f_1746_cd55u64
        && 0xd2bc_808f_538b_6b6du64 ^ (0xd2bc_808f_538b_6b6du64 >> 27) == 0xd2bc_8095_041b_7a87u64
        && 0x131a_c108_1133_70edu64 ^ (0x131a_c108_1133_70edu64 >> 31) == 0x131a_c108_3706_f2fdu64
        && 0x78dd_e6e5_fd29_f5f9u64 ^ (0x78dd_e6e5_fd29_f5f9u64 >> 30) == 0x78dd_e6e4_1e5e_6e6eu64
        && 0x9508_d108_ccfe_337eu64 ^ (0x9508_d108_ccfe_337eu64 >> 27) == 0x9508_d11a_6de4_1267u64
        && 0x2fba_7ad1_304c_bb8du64 ^ (0x2fba_7ad1_304c_bb8du64 >> 31) == 0x2fba_7ad1_6f38_4e2fu64
        && 0x1715_609f_7c74_720eu64 ^ (0x1715_609f_7c74_720eu64 >> 30) == 0x1715_609f_2021_f073u64
        && 0xcfc8_c53a_4f09_a21bu64 ^ (0xcfc8_c53a_4f09_a21bu64 >> 27) == 0xcfc8_c523_b611_0552u64
        && 0x0850_b86c_5dac_5446u64 ^ (0x0850_b86c_5dac_5446u64 >> 31) == 0x0850_b86c_4d0d_249eu64
        && 0xb54c_da58_fbbe_ee23u64 ^ (0xb54c_da58_fbbe_ee23u64 >> 30) == 0xb54c_da5a_2e8d_8740u64
        && 0x6a0a_bde7_b342_fd40u64 ^ (0x6a0a_bde7_b342_fd40u64 >> 27) == 0x6a0a_bdea_f215_41b6u64
        && 0x598c_c0a3_b8b6_6812u64 ^ (0x598c_c0a3_b8b6_6812u64 >> 31) == 0x598c_c0a3_0baf_e955u64
        && 0x5384_5412_7b09_6a38u64 ^ (0x5384_5412_7b09_6a38u64 >> 30) == 0x5384_5413_3518_3a71u64
        && 0x6e1e_1975_736d_50a9u64 ^ (0x6e1e_1975_736d_50a9u64 >> 27) == 0x6e1e_1978_b0ae_7e07u64
        && 0x2d9f_3863_6ae3_276du64 ^ (0x2d9f_3863_6ae3_276du64 >> 31) == 0x2d9f_3863_31dd_57abu64)
        by (bit_vector);
    lemma_run_states();
    if i == 0 {
        lemma_scramble(
            0x9e37_79b9_7f4a_81ba,
            0x9e37_79bb_0797_675f,
            0x782c_f48c_607d_aea7,
            0x782c_f483_65e3_3f2b,
            0x4429_f3fa_e707_d779,
            0x4429_f3fa_6f54_308c,
        );
    } else if i == 1 {
        lemma_scramble(
            0x3c6e_f372_fe94_fdcf,
            0x3c6e_f372_0f2f_3004,
            0x41fa_31fd_629d_46e4,
            0x41fa_31f5_5ddb_7948,
            0x4352_8813_4a4e_1d18,
            0x4352_8813_cceb_0d3e,
        );
    } else if i == 2 {
        lemma_scramble(
            0xdaa6_6d2c_7ddf_79e4,
            0xdaa6_6d2f_1746_cd55,
            0xd2bc_808f_538b_6b6d,
            0xd2bc_8095_041b_7a87,
            0x131a_c108_1133_70ed,
            0x131a_c108_3706_f2fd,
        );
    } else if i == 3 {
        lemma_scramble(
            0x78dd_e6e5_fd29_f5f9,
            0x78dd_e6e4_1e5e_6e6e,
            0x9508_d108_ccfe_337e,
            0x9508_d11a_6de4_1267,
            0x2fba_7ad1_304c_bb8d,
            0x2fba_7ad1_6f38_4e2f,
        );
    } else if i == 4 {
        lemma_scramble(
            0x1715_609f_7c74_720e,
            0x1715_609f_2021_f073,
            0xcfc8_c53a_4f09_a21b,
            0xcfc8_c523_b611_0552,
            0x0850_b86c_5dac_5446,
            0x0850_b86c_4d0d_249e,
        );
    } else if i == 5 {
        lemma_scramble(
            0xb54c_da58_fbbe_ee23,
            0xb54c_da5a_2e8d_8740,
            0x6a0a_bde7_b342_fd40,
            0x6a0a_bdea_f215_41b6,
            0x598c_c0a3_b8b6_6812,
            0x598c_c0a3_0baf_e955,
        );
    } else {
        lemma_scramble(
            0x5384_5412_7b09_6a38,
            0x5384_5413_3518_3a71,
            0x6e1e_1975_736d_50a9,
            0x6e1e_1978_b0ae_7e07,
            0x2d9f_3863_6ae3_276d,
            0x2d9f_3863_31dd_57ab,
        );
    }
}

/// The inverse of the generator's step among the states.
const INVERSE: u64 = 0xf1de_83e1_9937_733d;

/// Every stream comes to the lucky run: the step is odd, so the states form
/// one cycle.
proof fn lemma_run_is_reached(s: u64) -> (k: nat)
    ensures
        rng::advance(s, k) == LUCKY,
{
    let p = rng::period();
    let c: int = 10771413168148108919;
    assert(INVERSE * GAMMA == 1 + c * p);
    let d: int = LUCKY - s + p;
    let k: nat = (d * INVERSE) as nat;
    assert(d * INVERSE >= 0) by (nonlinear_arith)
        requires
            d >= 0,
    ;
    assert(k * GAMMA == d + (d * c) * p) by (nonlinear_arith)
        requires
            k == d * INVERSE,
            INVERSE * GAMMA == 1 + c * p,
    ;
    let m = 1 + d * c;
    assert(s + k * GAMMA == LUCKY + m * p) by (nonlinear_arith)
        requires
            k * GAMMA == d + (d * c) * p,
            d == LUCKY - s + p,
            m == 1 + d * c,
    ;
    vstd::arithmetic::div_mod::lemma_fundamental_div_mod_converse(
        s + k * GAMMA,
        p,
        m,
        LUCKY as int,
    );
    k
}

/// Once closing is forced by the length, the walk draws no more.
proof fn lemma_walk_home(s: u64, text: Seq<char>, depth: nat, target: nat, cap: nat)
    requires
        text.len() + depth >= target,
    ensures
        walk(s, text, depth, target, cap).1 == s,
    decreases target - text.len(),
{
    if text.len() < target {
        lemma_walk_home(s, text.push(')'), (depth - 1) as nat, target, cap);
    }
}

/// A walk that comes to the run in its draw `i` at some depth either climbs to
/// the floor or ends within the draws that this takes.
proof fn lemma_climb(i: nat, text: Seq<char>, depth: nat, target: nat, cap: nat, floor: nat)
    requires
        2 <= floor <= 4,
        floor <= cap,
        sound(text),
        level(text) == depth >= 1,
        peak(text) <= cap || peak(text) <= 1,
        i + floor <= RUN + depth,
    ensures
        ({
            let (r, after) = walk(rng::advance(LUCKY, i), text, depth, target, cap);
            peak(r) >= floor || exists|j: nat|
                i <= j <= i + floor - depth && after == #[trigger] rng::advance(LUCKY, j)
        }),
    decreases target - text.len(),
{
    let s = rng::advance(LUCKY, i);
    let opened = text.push('(');
    assert(opened.drop_last() =~= text);
    lemma_peak_covers(text);
    lemma_walk(s, text, depth, target, cap);
    if text.len() >= target || depth >= floor {
    } else if text.len() + depth >= target {
        lemma_walk_home(s, text, depth, target, cap);
    } else {
        rng::lemma_advance_adds(LUCKY, i, 1);
        assert(rng::draw(s, 0) == rng::draw(LUCKY, i));
        lemma_run(i);
        lemma_climb(i + 1, opened, depth + 1, target, cap, floor);
    }
}

/// A walk that comes to the beginning of the run either climbs to the floor or
/// ends within three draws.
proof fn lemma_walk_in_run(text: Seq<char>, depth: nat, target: nat, cap: nat, floor: nat)
    requires
        2 <= floor <= 4,
        floor <= cap,
        sound(text),
        level(text) == depth,
        peak(text) <= cap || peak(text) <= 1,
    ensures
        ({
            let (r, after) = walk(LUCKY, text, depth, target, cap);
            peak(r) >= floor || exists|j: nat| j <= 3 && after == #[trigger] rng::advance(LUCKY, j)
        }),
{
    rng::lemma_advance_adds(LUCKY, 0, 0);
    let opened = text.push('(');
    assert(opened.drop_last() =~= text);
    if depth > 0 {
        lemma_climb(0, text, depth, target, cap, floor);
    } else if text.len() < target {
        lemma_climb(0, opened, 1, target, cap, floor);
    } else {
        assert(walk(LUCKY, text, depth, target, cap).1 == rng::advance(LUCKY, 0));
    }
}

/// A walk that starts `k` draws before the run either ends before it, or
/// climbs to the floor, or ends within the first three draws of the run.
proof fn lemma_walk_to_run(s: u64, k: nat, text: Seq<char>, depth: nat, target: nat, cap: nat, floor: nat)
    requires
        rng::advance(s, k) == LUCKY,
        2 <= floor <= 4,
        floor <= cap,
        sound(text),
        level(text) == depth,
        peak(text) <= cap || peak(text) <= 1,
    ensures
        ({
            let (r, after) = walk(s, text, depth, target, cap);
            ||| exists|m: nat| m <= k && after == #[trigger] rng::advance(s, m)
            ||| peak(r) >= floor
            ||| exists|j: nat| j <= 3 && after == #[trigger] rng::advance(LUCKY, j)
        }),
    decreases target - text.len(),
{
    rng::lemma_advance_adds(s, 0, 0);
    let opened = text.push('(');
    let shut = text.push(')');
    assert(opened.drop_last() =~= text);
    assert(shut.drop_last() =~= text);
    if k == 0 {
        lemma_walk_in_run(text, depth, target, cap, floor);
    } else if text.len() >= target {
        assert(walk(s, text, depth, target, cap).1 == rng::advance(s, 0));
    } else if depth == 0 {
        lemma_walk_to_run(s, k, opened, 1, target, cap, floor);
    } else if depth < cap && text.len() + depth < target {
        let next = rng::advance(s, 1);
        let rest = (k - 1) as nat;
        rng::lemma_advance_adds(s, 1, rest);
        let (t, d) = if rng::draw(s, 0) < CUTOFF_FIFTY {
            (opened, depth + 1)
        } else {
            (shut, (depth - 1) as nat)
        };
        lemma_walk_to_run(next, rest, t, d, target, cap, floor);
        let after = walk(next, t, d, target, cap).1;
        if exists|m: nat| m <= rest && after == #[trigger] rng::advance(next, m) {
            let m = choose|m: nat| m <= rest && after == #[trigger] rng::advance(next, m);
            rng::lemma_advance_adds(s, 1, m);
            assert(after == rng::advance(s, 1 + m));
        }
    } else {
        lemma_walk_to_run(s, k, shut, (depth - 1) as nat, target, cap, floor);
    }
}

/// `n` opening brackets.
spec fn openers(n: nat) -> Seq<char> {
    Seq::new(n, |i: int| '(')
}

proof fn lemma_openers(n: nat)
    ensures
        sound(openers(n)),
        level(openers(n)) == n,
        peak(openers(n)) == n,
    decreases n,
{
    if n > 0 {
        lemma_openers((n - 1) as nat);
        assert(openers(n).drop_last() =~= openers((n - 1) as nat));
    }
}

/// A walk in the run that has only opened so far, with enough length to go,
/// climbs to the floor.
proof fn lemma_straight_climb(i: nat, depth: nat, target: nat, cap: nat, floor: nat)
    requires
        1 <= depth <= floor <= 4,
        floor <= cap,
        target >= 7,
        i + floor <= RUN + depth,
    ensures
        peak(walk(rng::advance(LUCKY, i), openers(depth), depth, target, cap).0) >= floor,
    decreases floor - depth,
{
    let s = rng::advance(LUCKY, i);
    lemma_openers(depth);
    if depth == floor {
        lemma_walk(s, openers(depth), depth, target, cap);
    } else {
        rng::lemma_advance_adds(LUCKY, i, 1);
        assert(rng::draw(s, 0) == rng::draw(LUCKY, i));
        lemma_run(i);
        assert(openers(depth).push('(') =~= openers(depth + 1));
        lemma_straight_climb(i + 1, depth + 1, target, cap, floor);
    }
}

/// An attempt that starts within the first draws of the run climbs to the
/// floor.
proof fn lemma_attempt_in_run(j: nat, cap: nat, floor: nat, lo: nat, hi: nat)
    requires
        j <= 3,
        2 <= floor <= 4,
        floor <= cap,
        (lo == 4 && hi == 12) || (lo == 10 && hi == 28),
    ensures
        peak(attempt(rng::advance(LUCKY, j), cap, lo, hi).0) >= floor,
{
    let s = rng::advance(LUCKY, j);
    let target = lo + rng::draw_below(s, 0, (hi - lo) as nat);
    rng::lemma_advance_adds(LUCKY, j, 1);
    assert(rng::draw(s, 0) == rng::draw(LUCKY, j));
    lemma_run(j);
    assert(target >= 7);
    assert(Seq::<char>::empty().push('(') =~= openers(1));
    lemma_straight_climb(j + 1, 1, target, cap, floor);
}

/// Attempts that start `k` draws before the run settle.
proof fn lemma_settles_before_run(s: u64, k: nat, cap: nat, floor: nat, lo: nat, hi: nat)
    requires
        rng::advance(s, k) == LUCKY,
        2 <= floor <= 4,
        floor <= cap,
        (lo == 4 && hi == 12) || (lo == 10 && hi == 28),
    ensures
        settles(s, cap, floor, lo, hi),
    decreases k,
{
    let (text, after) = attempt(s, cap, lo, hi);
    lemma_attempt(s, cap, lo, hi);
    rng::lemma_advance_adds(s, 0, 0);
    if kept(text, floor, lo) {
        assert(settles_within(s, cap, floor, lo, hi, 0));
    } else if k == 0 {
        rng::lemma_advance_adds(LUCKY, 0, 0);
        lemma_attempt_in_run(0, cap, floor, lo, hi);
    } else {
        let target = lo + rng::draw_below(s, 0, (hi - lo) as nat);
        let next = rng::advance(s, 1);
        let rest = (k - 1) as nat;
        rng::lemma_advance_adds(s, 1, rest);
        let none = Seq::<char>::empty();
        assert(sound(none) && level(none) == 0 && peak(none) == 0);
        lemma_walk_to_run(next, rest, none, 0, target, cap, floor);
        if exists|m: nat| m <= rest && after == #[trigger] rng::advance(next, m) {
            let m = choose|m: nat| m <= rest && after == #[trigger] rng::advance(next, m);
            rng::lemma_advance_adds(next, m, (rest - m) as nat);
            lemma_settles_before_run(after, (rest - m) as nat, cap, floor, lo, hi);
        } else {
            let j = choose|j: nat| j <= 3 && after == #[trigger] rng::advance(LUCKY, j);
            lemma_attempt_in_run(j, cap, floor, lo, hi);
            lemma_attempt(after, cap, lo, hi);
            assert(settles_within(after, cap, floor, lo, hi, 0));
        }
        let n = choose|n: nat| #[trigger] settles_within(after, cap, floor, lo, hi, n);
        assert(settles_within(s, cap, floor, lo, hi, n + 1));
    }
}

/// A rule with a floor of at most 4, and a cap that allows it, renders from
/// every generator state: its attempts settle wherever the stream starts.
pub proof fn lemma_dyck_ready(cap: nat, floor: nat)
    requires
        floor <= 4,
        floor <= 1 || floor <= cap,
    ensures
        dyck_model(cap, floor).ready,
{
    assert forall|s: u64| #[trigger] settles(s, cap, floor, 4, 12) by {
        lemma_settles(s, cap, floor, 4, 12);
    }
    assert forall|s: u64| #[trigger] settles(s, cap, floor, 10, 28) by {
        lemma_settles(s, cap, floor, 10, 28);
    }
}

proof fn lemma_settles(s: u64, cap: nat, floor: nat, lo: nat, hi: nat)
    requires
        floor <= 4,
        floor <= 1 || floor <= cap,
        (lo == 4 && hi == 12) || (lo == 10 && hi == 28),
    ensures
        settles(s, cap, floor, lo, hi),
{
    if floor <= 1 {
        lemma_attempt(s, cap, lo, hi);
        assert(settles_within(s, cap, floor, lo, hi, 0));
    } else {
        let k = lemma_run_is_reached(s);
        lemma_settles_before_run(s, k, cap, floor, lo, hi);
    }
}

/// Every query of a rule that renders: the input leaves something open, the
/// answer is exactly the closers it lacks, together they balance and stay
/// within the cap, and the rule accepts that answer and, but for white space
/// around it, no other.
pub proof fn lemma_dyck_judges_own_queries(cap: nat, floor: nat, s: u64, output: Seq<char>)
    requires
        dyck_model(cap, floor).ready,
    ensures
        ({
            let m = dyck_model(cap, floor);
            let q = (m.query)(s).0;
            &&& q.input.len() > 0
            &&& q.target.len() > 0
            &&& is_balanced(q.input + q.target)
            &&& peak(q.input + q.target) <= cap || peak(q.input + q.target) <= 1
            &&& (m.accepts)(q.input, q.target)
            &&& (m.accepts)(q.input, output) ==> crate::text::trimmed(output) == q.target
        }),
{
    let (full, after) = drawn_balanced(s, cap, floor, 10, 28);
    assert(settles(s, cap, floor, 10, 28));
    lemma_drawn_balanced(s, cap, floor, 10, 28);
    lemma_open_cuts(full, 8, 24);
    let cuts = open_cuts(full, 8, 24);
    let cut = cuts[rng::draw_below(after, 0, cuts.len()) as int];
    let input = full.take(cut);
    assert(0 < cut <= full.len());
    lemma_peak_prefix(full, cut);
    lemma_close(input, level(input));
    crate::text::lemma_trimmed_id(completed(input));
}

/// Demo prefixes are 2 to 7 characters long and query prefixes 8 to 23, so
/// their lengths never meet.
pub proof fn lemma_dyck_regimes(cap: nat, floor: nat, s: u64)
    requires
        dyck_model(cap, floor).ready,
    ensures
        2 <= (dyck_model(cap, floor).demo)(s).0.input.len() < 8,
        8 <= (dyck_model(cap, floor).query)(s).0.input.len() < 24,
{
    lemma_prefix_sound(s, cap, floor, 2, 8);
    lemma_prefix_sound(s, cap, floor, 8, 24);
}

proof fn lemma_prefix_sound(s: u64, cap: nat, floor: nat, lo: nat, hi: nat)
    requires
        lo + 1 < hi,
        settles(s, cap, floor, lo + 2, hi + 4),
    ensures
        lo <= drawn_prefix(s, cap, floor, lo, hi).0.len() < hi,
        sound(drawn_prefix(s, cap, floor, lo, hi).0),
{
    let (full, after) = drawn_balanced(s, cap, floor, lo + 2, hi + 4);
    lemma_drawn_balanced(s, cap, floor, lo + 2, hi + 4);
    lemma_open_cuts(full, lo, hi);
    let cuts = open_cuts(full, lo, hi);
    let cut = cuts[rng::draw_below(after, 0, cuts.len()) as int];
    assert(lo <= cut < hi && cut <= full.len());
}

/// A sound string is made of brackets.
proof fn lemma_sound_printable(s: Seq<char>)
    requires
        sound(s),
    ensures
        super::printable(s),
    decreases s.len(),
{
    if s.len() > 0 {
        lemma_sound_printable(s.drop_last());
        assert forall|i: int| 0 <= i < s.len() implies ' ' <= #[trigger] s[i] <= '~' by {
            if i < s.len() - 1 {
                assert(s[i] == s.drop_last()[i]);
            }
        }
    }
}

/// Everything that the rule of a track says is printable.
pub proof fn lemma_dyck_printable(track: Track)
    ensures
        demo::speaks_plainly(dyck_model(track_cap(track), track_floor(track))),
{
    let cap = track_cap(track);
    let floor = track_floor(track);
    let m = dyck_model(cap, floor);
    lemma_dyck_ready(cap, floor);
    assert forall|t: u64|
        super::printable((#[trigger] (m.demo)(t)).0.input) && super::printable(
            (m.demo)(t).0.output,
        ) by {
        assert(settles(t, cap, floor, 4, 12));
        lemma_prefix_sound(t, cap, floor, 2, 8);
        lemma_sound_printable((m.demo)(t).0.input);
    }
    assert forall|t: u64|
        super::printable((#[trigger] (m.query)(t)).0.input) && super::printable(
            (m.query)(t).0.target,
        ) by {
        assert(settles(t, cap, floor, 10, 28));
        lemma_prefix_sound(t, cap, floor, 8, 24);
        lemma_sound_printable((m.query)(t).0.input);
    }
    assert forall|t: u64, o: Seq<char>| super::printable(o) implies super::printable(
        (#[trigger] (m.corrupted)(t, o)).0,
    ) by {
        super::lemma_flip_printable(t, o);
    }
}

/// Every demo that a rule of the task renders is right by that rule.
pub proof fn lemma_dyck_demos_right(track: Track)
    ensures
        super::demos_right(dyck_model(track_cap(track), track_floor(track))),
{
    let m = dyck_model(track_cap(track), track_floor(track));
    assert forall|t: u64| super::right_by(m, (#[trigger] (m.demo)(t)).0) by {
        crate::text::lemma_trimmed_id((m.demo)(t).0.output);
    }
}

/// The depth after one bracket more: an opening one adds a level, anything else
/// takes one off where there is one.
pub proof fn lemma_level_steps(s: Seq<char>, c: char)
    ensures
        level(Seq::<char>::empty()) == 0,
        level(s.push('(')) == level(s) + 1,
        c != '(' && level(s) > 0 ==> level(s.push(c)) + 1 == level(s),
        c != '(' && level(s) == 0 ==> level(s.push(c)) == 0,
{
    assert(s.push('(').drop_last() =~= s);
    assert(s.push(c).drop_last() =~= s);
}

/// In a sound text the open depth is the number of opening brackets less that
/// of closing ones.
pub proof fn lemma_level_counts(s: Seq<char>)
    requires
        sound(s),
    ensures
        level(s) + s.filter(|c: char| c == ')').len() == s.filter(|c: char| c == '(').len(),
    decreases s.len(),
{
    reveal(Seq::filter);
    if s.len() > 0 {
        lemma_level_counts(s.drop_last());
    }
}

/// A text is sound exactly if it is made of brackets and no part that it starts
/// with holds more closing ones than opening ones.
pub proof fn lemma_sound_counts(s: Seq<char>)
    ensures
        sound(s) <==> {
            &&& forall|i: int| 0 <= i < s.len() ==> #[trigger] s[i] == '(' || s[i] == ')'
            &&& forall|n: int|
                0 <= n <= s.len() ==> (#[trigger] s.take(n)).filter(|c: char| c == ')').len()
                    <= s.take(n).filter(|c: char| c == '(').len()
        },
    decreases s.len(),
{
    reveal(Seq::filter);
    assert(s.take(s.len() as int) =~= s);
    if s.len() > 0 {
        let t = s.drop_last();
        lemma_sound_counts(t);
        assert forall|n: int| 0 <= n <= t.len() implies #[trigger] t.take(n) == s.take(n) by {
            assert(t.take(n) =~= s.take(n));
        }
        let shut = |c: char| c == ')';
        let open = |c: char| c == '(';
        if sound(s) {
            lemma_level_counts(t);
            lemma_level_counts(s);
            assert forall|i: int| 0 <= i < s.len() implies #[trigger] s[i] == '(' || s[i] == ')' by {
                if i < t.len() {
                    assert(s[i] == t[i]);
                }
            }
            assert forall|n: int| 0 <= n <= s.len() implies (#[trigger] s.take(n)).filter(shut).len()
                <= s.take(n).filter(open).len() by {
                if n < s.len() {
                    assert(t.take(n) == s.take(n));
                }
            }
        } else if (forall|i: int| 0 <= i < s.len() ==> #[trigger] s[i] == '(' || s[i] == ')') && (
        forall|n: int|
            0 <= n <= s.len() ==> (#[trigger] s.take(n)).filter(shut).len() <= s.take(n).filter(
                open,
            ).len()) {
            assert forall|i: int| 0 <= i < t.len() implies #[trigger] t[i] == '(' || t[i] == ')' by {
                assert(s[i] == t[i]);
            }
            assert forall|n: int| 0 <= n <= t.len() implies (#[trigger] t.take(n)).filter(shut).len()
                <= t.take(n).filter(open).len() by {
                assert(s.take(n) == t.take(n));
            }
            assert(sound(t));
            lemma_level_counts(t);
            assert(s.last() == s[s.len() - 1]);
            assert(s.take(s.len() as int).filter(shut).len() <= s.take(s.len() as int).filter(
                open,
            ).len());
        }
    }
}

/// The peak is the greatest depth that any part reaches that the text starts
/// with: no part goes beyond it, and one comes up to it.
pub proof fn lemma_peak_is_greatest(s: Seq<char>) -> (at: int)
    ensures
        0 <= at <= s.len(),
        level(s.take(at)) == peak(s),
        forall|n: int| 0 <= n <= s.len() ==> level(#[trigger] s.take(n)) <= peak(s),
    decreases s.len(),
{
    assert(s.take(s.len() as int) =~= s);
    if s.len() == 0 {
        assert forall|n: int| 0 <= n <= s.len() implies level(#[trigger] s.take(n)) <= peak(s) by {
            assert(s.take(n) =~= s);
        }
        0
    } else {
        let t = s.drop_last();
        let before = lemma_peak_is_greatest(t);
        assert(t.take(before) =~= s.take(before));
        assert forall|n: int| 0 <= n <= s.len() implies level(#[trigger] s.take(n)) <= peak(s) by {
            if n < s.len() {
                assert(t.take(n) =~= s.take(n));
            }
        }
        if level(s) > peak(t) {
            s.len() as int
        } else {
            before
        }
    }
}

/// The completion of a text is closing brackets and nothing else, as many as
/// are open; after a sound text they are the ones it lacks.
pub proof fn lemma_completion_closes(input: Seq<char>)
    ensures
        completed(input).len() == level(input),
        forall|i: int| 0 <= i < completed(input).len() ==> #[trigger] completed(input)[i] == ')',
        sound(input) ==> {
            let all = input + completed(input);
            all.filter(|c: char| c == '(').len() == all.filter(|c: char| c == ')').len()
        },
        sound(input) ==> sound(input + completed(input)),
{
    if sound(input) {
        lemma_close(input, level(input));
        lemma_level_counts(input + completed(input));
    }
}

/// The walk, bracket by bracket: `at[i]` is the generator state in which bracket
/// `i` is written. It opens where nothing is open; it closes where it must, at
/// the cap or to be done in time; else a coin decides, and only then is anything
/// drawn. Behind the target length come closing brackets only.
proof fn lemma_walk_steps(s: u64, text: Seq<char>, depth: nat, target: nat, cap: nat) -> (at: Seq<
    u64,
>)
    requires
        sound(text),
        level(text) == depth,
        text.len() <= target,
        peak(text) <= cap || peak(text) <= 1,
    ensures
        ({
            let (r, after) = walk(s, text, depth, target, cap);
            &&& at.len() == target + 1
            &&& at[text.len() as int] == s
            &&& at[target as int] == after
            &&& target <= r.len()
            &&& forall|i: int| target <= i < r.len() ==> #[trigger] r[i] == ')'
            &&& forall|i: int|
                text.len() <= i < target ==> {
                    let d = level(r.take(i));
                    if d == 0 {
                        r[i] == '(' && at[i + 1] == #[trigger] at[i]
                    } else if d < cap && i + d < target {
                        (r[i] == if rng::draw(at[i], 0) < 0x7FFF_FFFF_FFFF_FE00 {
                            '('
                        } else {
                            ')'
                        }) && at[i + 1] == rng::advance(at[i], 1)
                    } else {
                        r[i] == ')' && at[i + 1] == at[i]
                    }
                }
        }),
    decreases target - text.len(),
{
    let (r, after) = walk(s, text, depth, target, cap);
    lemma_walk(s, text, depth, target, cap);
    if text.len() == target {
        Seq::new(target + 1, |i: int| s)
    } else {
        let opened = text.push('(');
        let shut = text.push(')');
        assert(opened.drop_last() =~= text);
        assert(shut.drop_last() =~= text);
        let (next, more, d) = if depth == 0 {
            (s, opened, 1nat)
        } else if depth < cap && text.len() + depth < target {
            if rng::draw(s, 0) < CUTOFF_FIFTY {
                (rng::advance(s, 1), opened, depth + 1)
            } else {
                (rng::advance(s, 1), shut, (depth - 1) as nat)
            }
        } else {
            (s, shut, (depth - 1) as nat)
        };
        assert(walk(s, text, depth, target, cap) == walk(next, more, d, target, cap));
        lemma_walk(next, more, d, target, cap);
        let n = text.len() as int;
        assert(r[n] == r.take(n + 1)[n]);
        assert(r.take(n + 1) == more);
        assert(r[n] == more[n]);
        let rest = lemma_walk_steps(next, more, d, target, cap);
        let at = rest.update(n, s);
        assert forall|i: int| text.len() <= i < target implies {
            let d = level(r.take(i));
            if d == 0 {
                r[i] == '(' && at[i + 1] == #[trigger] at[i]
            } else if d < cap && i + d < target {
                (r[i] == if rng::draw(at[i], 0) < 0x7FFF_FFFF_FFFF_FE00 {
                    '('
                } else {
                    ')'
                }) && at[i + 1] == rng::advance(at[i], 1)
            } else {
                r[i] == ')' && at[i + 1] == at[i]
            }
        } by {
            if i > n {
                assert(rest[i] == at[i]);
                assert(rest[i + 1] == at[i + 1]);
            } else {
                assert(r.take(n) == text);
                assert(at[n + 1] == rest[n + 1]);
            }
        }
        at
    }
}

/// One attempt, bracket by bracket: the first draw says how long it is to be,
/// and then `at[i]` is the generator state in which bracket `i` is written. It
/// opens where nothing is open; it closes where it must, at the cap or to be
/// done in time; else a coin decides, and only then is anything drawn. Behind
/// the length to be come closing brackets only, until all is closed.
pub proof fn lemma_attempt_steps(s: u64, cap: nat, lo: nat, hi: nat) -> (at: Seq<u64>)
    requires
        lo < hi,
    ensures
        ({
            let (r, after) = attempt(s, cap, lo, hi);
            let target = lo + (rng::draw(s, 0) as int) % (hi - lo);
            &&& at.len() == target + 1
            &&& at[0] == rng::advance(s, 1)
            &&& at[target] == after
            &&& target <= r.len()
            &&& level(r) == 0
            &&& forall|i: int| target <= i < r.len() ==> #[trigger] r[i] == ')'
            &&& forall|i: int|
                0 <= i < target ==> {
                    let d = level(r.take(i));
                    if d == 0 {
                        r[i] == '(' && at[i + 1] == #[trigger] at[i]
                    } else if d < cap && i + d < target {
                        (r[i] == if rng::draw(at[i], 0) < 0x7FFF_FFFF_FFFF_FE00 {
                            '('
                        } else {
                            ')'
                        }) && at[i + 1] == rng::advance(at[i], 1)
                    } else {
                        r[i] == ')' && at[i + 1] == at[i]
                    }
                }
        }),
{
    let none = Seq::<char>::empty();
    let target = lo + rng::draw_below(s, 0, (hi - lo) as nat);
    assert(sound(none) && level(none) == 0 && peak(none) == 0);
    lemma_attempt(s, cap, lo, hi);
    lemma_walk_steps(rng::advance(s, 1), none, 0, target, cap)
}

/// The string that is drawn is the first attempt that reaches the floor: `at`
/// holds the states in which the attempts start, one after the other, all but
/// the last of them in vain.
pub proof fn lemma_drawn_is_first_kept(s: u64, cap: nat, floor: nat, lo: nat, hi: nat) -> (at: Seq<
    u64,
>)
    requires
        lo < hi,
        settles(s, cap, floor, lo, hi),
    ensures
        at.len() > 0,
        at[0] == s,
        drawn_balanced(s, cap, floor, lo, hi) == attempt(at.last(), cap, lo, hi),
        peak(drawn_balanced(s, cap, floor, lo, hi).0) >= floor,
        forall|i: int|
            0 <= i < at.len() - 1 ==> peak(attempt(#[trigger] at[i], cap, lo, hi).0) < floor && at[i
                + 1] == attempt(at[i], cap, lo, hi).1,
{
    let n = choose|n: nat| #[trigger] settles_within(s, cap, floor, lo, hi, n);
    lemma_first_kept_chain(s, cap, floor, lo, hi, n)
}

proof fn lemma_first_kept_chain(s: u64, cap: nat, floor: nat, lo: nat, hi: nat, n: nat) -> (at: Seq<
    u64,
>)
    requires
        lo < hi,
        settles_within(s, cap, floor, lo, hi, n),
    ensures
        at.len() > 0,
        at[0] == s,
        first_kept(s, cap, floor, lo, hi, n) == attempt(at.last(), cap, lo, hi),
        peak(first_kept(s, cap, floor, lo, hi, n).0) >= floor,
        forall|i: int|
            0 <= i < at.len() - 1 ==> peak(attempt(#[trigger] at[i], cap, lo, hi).0) < floor && at[i
                + 1] == attempt(at[i], cap, lo, hi).1,
    decreases n,
{
    let (text, after) = attempt(s, cap, lo, hi);
    lemma_attempt(s, cap, lo, hi);
    if kept(text, floor, lo) {
        seq![s]
    } else {
        let rest = lemma_first_kept_chain(after, cap, floor, lo, hi, (n - 1) as nat);
        let at = seq![s] + rest;
        assert(at.last() == rest.last());
        assert forall|i: int| 0 <= i < at.len() - 1 implies peak(
            attempt(#[trigger] at[i], cap, lo, hi).0,
        ) < floor && at[i + 1] == attempt(at[i], cap, lo, hi).1 by {
            if i > 0 {
                assert(at[i] == rest[i - 1]);
                assert(at[i + 1] == rest[i]);
            } else {
                assert(at[1] == rest[0]);
            }
        }
        at
    }
}

/// The cuts are all the lengths from `lo` up to `hi` after which something is
/// open, each once, from short to long.
pub proof fn lemma_cuts_listed(s: Seq<char>, lo: nat, hi: nat)
    ensures
        forall|p: int| #[trigger]
            open_cuts(s, lo, hi).contains(p) <==> 0 < p <= s.len() && lo <= p < hi && level(
                s.take(p),
            ) > 0,
        forall|i: int, j: int|
            0 <= i < j < open_cuts(s, lo, hi).len() ==> #[trigger] open_cuts(s, lo, hi)[i]
                < #[trigger] open_cuts(s, lo, hi)[j],
    decreases s.len(),
{
    let cuts = open_cuts(s, lo, hi);
    if s.len() > 0 {
        let t = s.drop_last();
        let front = open_cuts(t, lo, hi);
        lemma_cuts_listed(t, lo, hi);
        assert(s.take(s.len() as int) =~= s);
        assert forall|p: int| #[trigger] cuts.contains(p) <==> 0 < p <= s.len() && lo <= p < hi
            && level(s.take(p)) > 0 by {
            if 0 < p <= t.len() {
                assert(t.take(p) =~= s.take(p));
            }
            if cuts.len() > front.len() {
                assert(cuts == front.push(s.len() as int));
                assert(cuts[front.len() as int] == s.len());
                if front.contains(p) {
                    let i = choose|i: int| 0 <= i < front.len() && front[i] == p;
                    assert(cuts[i] == p);
                }
                if cuts.contains(p) && p != s.len() {
                    let i = choose|i: int| 0 <= i < cuts.len() && cuts[i] == p;
                    assert(front[i] == p);
                    assert(front.contains(p));
                }
            } else {
                assert(cuts == front);
                assert(front.contains(p) ==> p <= t.len());
            }
        }
        assert forall|i: int, j: int| 0 <= i < j < cuts.len() implies #[trigger] cuts[i]
            < #[trigger] cuts[j] by {
            if j < front.len() {
                assert(front[i] == cuts[i] && front[j] == cuts[j]);
            } else {
                assert(front[i] == cuts[i]);
                assert(front.contains(front[i]));
            }
        }
    }
}

/// What the task asks on each track: a prefix of a balanced string that is
/// drawn, cut where the next draw says among the places that leave something
/// open, and the brackets that it lacks. Track A goes one to three levels deep,
/// track B four to six. Answers are judged by the same, whatever the input.
pub proof fn lemma_dyck_asks(s: u64, track: Track, t: u64, input: Seq<char>, output: Seq<char>)
    ensures
        ({
            let (m, last) = (DyckTask.model().rule)(s, track);
            let (floor, cap): (nat, nat) = if track == Track::A {
                (1, 3)
            } else {
                (4, 6)
            };
            let (short, u) = drawn_balanced(t, cap, floor, 4, 12);
            let (long, v) = drawn_balanced(t, cap, floor, 10, 28);
            let few = open_cuts(short, 2, 8);
            let many = open_cuts(long, 8, 24);
            let d = (m.demo)(t).0;
            let q = (m.query)(t).0;
            &&& last == s
            &&& m.ready
            &&& (m.decides)(input, output)
            &&& m.policy == PolicyModel::ExcludeAnswer
            &&& m.header is None
            &&& few.len() > 0
            &&& d.input == short.take(few[(rng::draw(u, 0) as nat % few.len()) as int])
            &&& d.output.len() == level(d.input)
            &&& (m.demo)(t).1 == rng::advance(u, 1)
            &&& many.len() > 0
            &&& q.input == long.take(many[(rng::draw(v, 0) as nat % many.len()) as int])
            &&& q.target.len() == level(q.input)
            &&& (m.query)(t).1 == rng::advance(v, 1)
            &&& is_balanced(d.input + d.output)
            &&& is_balanced(q.input + q.target)
            &&& floor <= peak(short) <= cap
            &&& floor <= peak(long) <= cap
            &&& (m.accepts)(input, output) <==> {
                let answer = crate::text::trimmed(output);
                &&& answer.len() == level(input)
                &&& forall|i: int| 0 <= i < answer.len() ==> #[trigger] answer[i] == ')'
            }
            &&& (m.corrupted)(t, output) == super::flipped(t, output)
        }),
{
    let cap = track_cap(track);
    let floor = track_floor(track);
    let m = dyck_model(cap, floor);
    lemma_dyck_ready(cap, floor);
    assert(settles(t, cap, floor, 4, 12));
    assert(settles(t, cap, floor, 10, 28));
    lemma_prefix_sound(t, cap, floor, 2, 8);
    lemma_prefix_sound(t, cap, floor, 8, 24);
    let (short, u) = drawn_balanced(t, cap, floor, 4, 12);
    let (long, v) = drawn_balanced(t, cap, floor, 10, 28);
    lemma_drawn_balanced(t, cap, floor, 4, 12);
    lemma_drawn_balanced(t, cap, floor, 10, 28);
    lemma_open_cuts(short, 2, 8);
    lemma_open_cuts(long, 8, 24);
    let d = (m.demo)(t).0;
    let q = (m.query)(t).0;
    lemma_close(d.input, level(d.input));
    lemma_close(q.input, level(q.input));
    let answer = crate::text::trimmed(output);
    if answer.len() == level(input) && forall|i: int|
        0 <= i < answer.len() ==> #[trigger] answer[i] == ')' {
        assert(answer =~= completed(input));
    }
}

} // verus!
