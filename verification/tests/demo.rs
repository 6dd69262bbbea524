//! The demonstration protocol.

use generalist::tasks::demo::{balanced_counts, occurs_in, shows, CopyRate};
use generalist::tasks::parity::ParityTask;
use generalist::tasks::rate::{Rate, CUTOFF_FIFTY};
use generalist::tasks::{
    flip_symbol, Demo, DemoPolicy, DemoProtocol, HarnessRng, Instance, Query, Rule,
    RuleModel, Task, TaskRegistry, Track,
};

fn rate(p: f64) -> Rate {
    Rate::from_bits(p.to_bits()).unwrap()
}

struct ConstRule;

impl Rule for ConstRule {
    // Ghost: a rule outside the library has no model, and nothing runs this.
    fn model(&self) -> RuleModel {
        unreachable!()
    }
    fn render_demo(&self, rng: &mut HarnessRng) -> Demo {
        let n = rng.range(4, 12);
        Demo { input: "a".repeat(n), output: "b".to_string() }
    }
    fn render_query(&self, rng: &mut HarnessRng) -> Query {
        Query { input: "a".repeat(rng.range(16, 32)), target: "b".to_string() }
    }
    fn verify(&self, _input: &str, output: &str) -> bool {
        output == "b"
    }
    fn corrupt(&self, rng: &mut HarnessRng, output: &str) -> String {
        flip_symbol(rng, output)
    }
    fn demo_policy(&self) -> DemoPolicy {
        DemoPolicy::ExcludeAnswer
    }
    fn oracle_header(&self) -> Option<String> {
        None
    }
}

#[test]
fn k_zero_has_no_demos() {
    let p = DemoProtocol { k_set: vec![0], ..Default::default() };
    let mut rng = HarnessRng::new(1);
    let inst = p.build("t", 0, Track::A, &ConstRule, &mut rng);
    assert_eq!(inst.info.k, 0);
    assert!(inst.info.demos.is_empty());
    assert!(!inst.info.corrupted_demo);
}

#[test]
fn layouts_use_pool_separators() {
    let p = DemoProtocol::default();
    let mut rng = HarnessRng::new(2);
    for _ in 0..50 {
        let inst = p.build("t", 0, Track::A, &ConstRule, &mut rng);
        let prompt = String::from_utf8(inst.prompt).unwrap();
        assert!(
            p.seps.iter().any(|s| prompt.contains(s.as_str())),
            "prompt lacks a known separator: {prompt:?}"
        );
    }
}

#[test]
fn corruption_hits_outputs_only() {
    let p = DemoProtocol { corrupt_rate: rate(1.0), k_set: vec![3], ..Default::default() };
    let mut rng = HarnessRng::new(3);
    let mut saw = false;
    for _ in 0..20 {
        let inst = p.build("t", 0, Track::A, &ConstRule, &mut rng);
        if inst.info.corrupted_demo {
            saw = true;
            assert!(inst.info.demos.iter().any(|d| d.output != "b"));
        }
    }
    assert!(saw);
}

#[test]
fn copy_rate_counts_verbatim() {
    let demos = vec![
        Demo { input: "x".into(), output: "aa".into() },
        Demo { input: "y".into(), output: "bb".into() },
    ];
    let share = |r: CopyRate| if r.total == 0 { 0.0 } else { r.hits as f64 / r.total as f64 };
    assert!((share(DemoProtocol::copy_rate(&demos, &["aa", "zz"])) - 0.5).abs() < 1e-9);
    assert_eq!(share(DemoProtocol::copy_rate(&demos, &[])), 0.0);
    assert_eq!(DemoProtocol::copy_rate(&demos, &["a", "aa", "bb"]), CopyRate { hits: 3, total: 3 });
}

#[test]
fn copy_rate_counts_substrings() {
    let demos = vec![
        Demo { input: "x".into(), output: "aab".into() },
        Demo { input: "zz".into(), output: "c\u{e9}d".into() },
    ];
    let rate = |outputs: &[&str]| DemoProtocol::copy_rate(&demos, outputs);
    assert_eq!(rate(&["aa"]), CopyRate { hits: 1, total: 1 });
    assert_eq!(rate(&["ab", "b", "\u{e9}d", "aab"]), CopyRate { hits: 4, total: 4 });
    // Neither gaps, nor inputs, nor two demos together, nor anything longer.
    assert_eq!(rate(&["aba", "zz", "bc", "aabb"]), CopyRate { hits: 0, total: 4 });
    // The empty output occurs wherever there is a demo.
    assert_eq!(rate(&[""]), CopyRate { hits: 1, total: 1 });
    assert_eq!(DemoProtocol::copy_rate(&[], &["", "a"]), CopyRate { hits: 0, total: 2 });
    // A record's verdict asks for the whole output.
    assert!(occurs_in(&demos, "aa") && !shows(&demos, "aa"));
    assert!(shows(&demos, "aab"));
}

#[test]
fn balanced_counts_shapes() {
    let mut rng = HarnessRng::new(5);
    assert_eq!(balanced_counts(8, &mut rng), (4, 4));
    assert_eq!(balanced_counts(2, &mut rng), (1, 1));
    assert_eq!(balanced_counts(0, &mut rng), (0, 0));
    // Odd k: ceil/floor split, majority side varies across draws.
    let mut saw_first = false;
    let mut saw_second = false;
    for _ in 0..20 {
        let (a, b) = balanced_counts(5, &mut rng);
        assert_eq!(a + b, 5);
        assert_eq!(a.abs_diff(b), 1);
        saw_first |= a == 3;
        saw_second |= b == 3;
    }
    assert!(saw_first && saw_second, "odd-k majority side never alternated");
    let (a, b) = balanced_counts(3, &mut rng);
    assert_eq!(a + b, 3);
    assert_eq!(a.abs_diff(b), 1);
}

/// Binary-output stub under the ExcludeAnswer policy. Demos naturally match
/// the target ~50% of the time, so this fuzz only passes if enforcement
/// actively strips copies (uses the default protocol with corruption on,
/// proving the post-corruption guarantee too).
struct BinaryRule;

impl Rule for BinaryRule {
    // Ghost: a rule outside the library has no model, and nothing runs this.
    fn model(&self) -> RuleModel {
        unreachable!()
    }
    fn render_demo(&self, rng: &mut HarnessRng) -> Demo {
        Demo {
            input: "x".to_string(),
            output: if rng.prob(rate(0.5)) { "0".to_string() } else { "1".to_string() },
        }
    }
    fn render_query(&self, rng: &mut HarnessRng) -> Query {
        Query {
            input: "y".to_string(),
            target: if rng.prob(rate(0.5)) { "0".to_string() } else { "1".to_string() },
        }
    }
    fn verify(&self, _input: &str, output: &str) -> bool {
        output == "0" || output == "1"
    }
    fn corrupt(&self, rng: &mut HarnessRng, output: &str) -> String {
        flip_symbol(rng, output)
    }
    fn demo_policy(&self) -> DemoPolicy {
        DemoPolicy::ExcludeAnswer
    }
    fn oracle_header(&self) -> Option<String> {
        None
    }
}

#[test]
fn exclusion_strips_copies() {
    let p = DemoProtocol { k_set: vec![8], k0_rate: rate(0.0), ..Default::default() };
    let mut rng = HarnessRng::new(6);
    for _ in 0..200 {
        let inst = p.build("t", 0, Track::A, &BinaryRule, &mut rng);
        assert_eq!(inst.info.demos.len(), 8);
        assert!(
            inst.info.demos.iter().all(|d| d.output != inst.info.expected),
            "a demo copies the target {:?}",
            inst.info.expected,
        );
    }
}

#[test]
fn exclusion_terminates_on_singleton_output_space() {
    // ConstRule can only emit "b" == target: bounded tries must terminate
    // and keep the last render instead of looping forever.
    let p = DemoProtocol {
        k_set: vec![3],
        k0_rate: rate(0.0),
        corrupt_rate: rate(0.0),
        ..Default::default()
    };
    let mut rng = HarnessRng::new(9);
    for _ in 0..20 {
        let inst = p.build("t", 0, Track::A, &ConstRule, &mut rng);
        assert_eq!(inst.info.demos.len(), 3);
        assert!(inst.info.demos.iter().all(|d| d.output == "b"));
    }
}

#[test]
fn build_is_deterministic_across_tasks() {
    let registry = TaskRegistry::builtin();
    let proto = DemoProtocol::default();
    for seed in [7u64, 12345] {
        for track in [Track::A, Track::B] {
            for name in registry.names() {
                let task = registry.get(name).unwrap();
                let mut ra = HarnessRng::new(seed);
                let mut rb = HarnessRng::new(seed);
                for _ in 0..5 {
                    let rule_a = task.sample_rule(&mut ra, track);
                    let rule_b = task.sample_rule(&mut rb, track);
                    let a = proto.build(task.name(), task.stage(), track, &rule_a, &mut ra);
                    let b = proto.build(task.name(), task.stage(), track, &rule_b, &mut rb);
                    assert_eq!(a.prompt, b.prompt, "{name} {track:?}");
                    assert_eq!(a.target, b.target, "{name} {track:?}");
                    assert_eq!(a.info.demos.len(), b.info.demos.len(), "{name} {track:?}");
                    for (da, db) in a.info.demos.iter().zip(b.info.demos.iter()) {
                        assert_eq!(da.input, db.input, "{name} {track:?}");
                        assert_eq!(da.output, db.output, "{name} {track:?}");
                    }
                }
            }
        }
    }
}

fn build_parity_k(
    task: &ParityTask,
    track: Track,
    k: usize,
    seed: u64,
    n: usize,
) -> Vec<Instance> {
    let proto = DemoProtocol {
        k_set: vec![k],
        k0_rate: rate(0.0),
        corrupt_rate: rate(0.0),
        ..Default::default()
    };
    let mut rng = HarnessRng::new(seed);
    (0..n)
        .map(|_| {
            let rule = task.sample_rule(&mut rng, track);
            proto.build(task.name(), task.stage(), track, &rule, &mut rng)
        })
        .collect()
}

#[test]
fn balanced_demos_exact_counts() {
    let task = ParityTask;
    // (k, (minority, majority)): exact per-instance class counts.
    for (k, lo, hi) in [(2usize, 1usize, 1usize), (3, 1, 2), (5, 2, 3), (8, 4, 4)] {
        for (ti, track) in [Track::A, Track::B].iter().enumerate() {
            let insts = build_parity_k(&task, *track, k, 100 + k as u64 * 10 + ti as u64, 200);
            let mut saw_zero_majority = false;
            let mut saw_one_majority = false;
            for inst in &insts {
                assert_eq!(inst.info.demos.len(), k, "k={k} {track:?}");
                let c0 = inst.info.demos.iter().filter(|d| d.output == "0").count();
                let c1 = inst.info.demos.iter().filter(|d| d.output == "1").count();
                assert_eq!(c0 + c1, k, "non-binary demo output at k={k} {track:?}");
                assert_eq!(std::cmp::min(c0, c1), lo, "k={k} {track:?}: counts {c0}/{c1}");
                assert_eq!(std::cmp::max(c0, c1), hi, "k={k} {track:?}: counts {c0}/{c1}");
                saw_zero_majority |= c0 > c1;
                saw_one_majority |= c1 > c0;
            }
            if lo != hi {
                // Odd k must alternate which class holds the majority.
                assert!(
                    saw_zero_majority && saw_one_majority,
                    "k={k} {track:?}: majority side never alternated"
                );
            }
        }
    }
}

#[test]
fn k_one_left_as_sampled() {
    let task = ParityTask;
    // k=1 is untouched by balancing: demos stay binary, and (unlike
    // ExcludeAnswer) some instances still show the query target, proving
    // no exclusion was applied.
    for track in [Track::A, Track::B] {
        let insts = build_parity_k(&task, track, 1, 200, 200);
        let mut saw_match = false;
        for inst in &insts {
            assert_eq!(inst.info.demos.len(), 1);
            assert!(inst.info.demos[0].output == "0" || inst.info.demos[0].output == "1");
            saw_match |= inst.info.demos[0].output == inst.info.expected;
        }
        assert!(saw_match, "{track:?}: k=1 never matched target; exclusion suspected");
    }
}

#[test]
fn prompts_are_laid_out_line_by_line() {
    let p = DemoProtocol {
        k_set: vec![2],
        k0_rate: rate(0.0),
        corrupt_rate: rate(0.0),
        seps: vec!["=".to_string()],
    };
    let mut rng = HarnessRng::new(10);
    let mut saw = [false, false];
    for _ in 0..40 {
        let inst = p.build("t", 0, Track::B, &BinaryRule, &mut rng);
        let d = &inst.info.demos;
        let lines = format!("x={}\nx={}\n", d[0].output, d[1].output);
        let want = if inst.info.query_first {
            format!("Q =\ny=\n{lines}A=\n")
        } else {
            format!("{lines}y=\n")
        };
        assert_eq!(String::from_utf8(inst.prompt.clone()).unwrap(), want);
        assert_eq!(inst.target, inst.info.expected.clone().into_bytes());
        assert_eq!(inst.info.track, Track::B);
        saw[inst.info.query_first as usize] = true;
    }
    assert_eq!(saw, [true, true]);
}

#[test]
fn k_follows_the_set_and_its_zero_rate() {
    let p = DemoProtocol::default();
    let mut rng = HarnessRng::new(11);
    let mut zeros = 0;
    for _ in 0..2000 {
        let inst = p.build("t", 0, Track::A, &BinaryRule, &mut rng);
        assert!([0, 1, 2, 3, 5, 8].contains(&inst.info.k));
        assert_eq!(inst.info.k, inst.info.demos.len());
        if inst.info.k == 0 {
            zeros += 1;
            assert!(!inst.info.query_first);
        }
    }
    assert!((200..400).contains(&zeros), "k=0 in {zeros} of 2000");
    let coin = Rate { cutoff: CUTOFF_FIFTY };
    assert_eq!(coin, rate(0.5));
}

#[test]
fn demos_follow_their_rule() {
    let registry = TaskRegistry::builtin();
    let protocol = DemoProtocol::default();
    let mut rng = HarnessRng::new(4242);
    let mut corrupted = 0;
    for name in registry.names() {
        let task = registry.get(name).unwrap();
        for _ in 0..100 {
            for track in [Track::A, Track::B] {
                let rule = task.sample_rule(&mut rng, track);
                let x = protocol.build(task.name(), task.stage(), track, &rule, &mut rng);
                let wrong =
                    x.info.demos.iter().filter(|d| !rule.verify(&d.input, &d.output)).count();
                assert!(wrong <= x.info.corrupted_demo as usize, "{name} {track:?}");
                corrupted += wrong;
            }
        }
    }
    assert!(corrupted > 0);
}
