//! The task families: rules, regimes, tracks.

use std::collections::HashSet;

use generalist::tasks::copy::{CopyOp, CopyRule, CopyTask};
use generalist::tasks::dyck::{DyckRule, DyckTask};
use generalist::tasks::fst::{OracleSubstRule, SubstFstFixedTask, SubstFstOracleTask, SubstFstTask, SubstRule};
use generalist::tasks::parity::{ParityRule, ParityTask};
use generalist::tasks::periodic::{PeriodicRule, PeriodicTask};
use generalist::tasks::scan::{ScanRule, ScanTask};
use generalist::tasks::{
    flip_symbol, DemoPolicy, DemoProtocol, HarnessRng, Instance, InstanceInfo, Rule, Task,
    TaskRegistry, Track,
};

/// Shared anti-copy fuzz: build `n` instances per track with the default
/// protocol and assert no demo output equals the query target.
fn fuzz_no_demo_equals_target(task: &dyn Task, seed: u64, n: usize) {
    let proto = DemoProtocol::default();
    let mut rng = HarnessRng::new(seed);
    for _ in 0..n {
        for track in [Track::A, Track::B] {
            let rule = task.sample_rule(&mut rng, track);
            let inst = proto.build(task.name(), task.stage(), track, &rule, &mut rng);
            assert!(
                !inst.info.demos.iter().any(|d| d.output == inst.info.expected),
                "{} {track:?}: a demo copies the query target {:?}",
                task.name(),
                inst.info.expected,
            );
        }
    }
}

#[test]
fn registry_lists_builtin_tasks() {
    let r = TaskRegistry::builtin();
    assert_eq!(r.len(), 6);
    for name in ["parity", "dyck1", "subst-fst", "periodic", "copy-rev-rep", "scan-tiny"] {
        assert!(r.get(name).is_some(), "missing {name}");
    }
}

#[test]
fn registry_finds_by_name_only() {
    let mut r = TaskRegistry::default();
    assert!(r.is_empty());
    assert!(r.get("parity").is_none());
    r.register(Box::new(ParityTask));
    r.register(Box::new(ScanTask));
    assert!(!r.is_empty());
    assert_eq!(r.names(), vec!["parity", "scan-tiny"]);
    assert_eq!(r.get("scan-tiny").unwrap().name(), "scan-tiny");
    assert!(r.get("scan").is_none());
}

#[test]
fn instance_ids_roundtrip_bytes() {
    let inst = Instance {
        prompt: b"01->1".to_vec(),
        target: b"1".to_vec(),
        info: InstanceInfo::test_info(),
    };
    assert_eq!(inst.prompt_ids(), vec![48, 49, 45, 62, 49]);
    assert_eq!(inst.target_ids(), vec![49]);
    let copy = inst.clone();
    assert_eq!(copy.prompt, inst.prompt);
    assert_eq!(copy.info.task, "test");
}

#[test]
fn parity_values_and_regimes() {
    let rule = ParityRule { symbol: b'1' };
    assert_eq!(rule.parity("1011"), "1");
    assert_eq!(rule.parity("1010"), "0");
    let mut rng = HarnessRng::new(11);
    for _ in 0..50 {
        let d = rule.render_demo(&mut rng);
        assert!((4..12).contains(&d.input.len()));
        let q = rule.render_query(&mut rng);
        assert!((16..32).contains(&q.input.len()));
        assert!(rule.verify(&q.input, &q.target));
        assert!(!rule.verify(&q.input, if q.target == "1" { "0" } else { "1" }));
    }
}

#[test]
fn tracks_use_different_symbols() {
    let task = ParityTask;
    let mut rng = HarnessRng::new(12);
    let a = task.sample_rule(&mut rng, Track::A);
    let b = task.sample_rule(&mut rng, Track::B);
    // "110": ones=2 even -> "0"; zeros=1 odd -> "1". Distinguishes.
    assert!(a.verify("110", "0"));
    assert!(b.verify("110", "1"));
}

#[test]
fn demo_policy_is_balanced_binary() {
    let task = ParityTask;
    match task.demo_policy() {
        DemoPolicy::Balanced { classes } => {
            assert_eq!(classes, vec!["0".to_string(), "1".to_string()]);
        }
        other => panic!("parity task should be Balanced, got {other:?}"),
    }
    let mut rng = HarnessRng::new(13);
    for track in [Track::A, Track::B] {
        let rule = task.sample_rule(&mut rng, track);
        match rule.demo_policy() {
            DemoPolicy::Balanced { classes } => {
                assert_eq!(classes, vec!["0".to_string(), "1".to_string()]);
            }
            other => panic!("parity rule should be Balanced, got {other:?}"),
        }
    }
}

#[test]
fn answers_are_judged_trimmed() {
    let rule = ParityRule { symbol: b'1' };
    assert!(rule.verify("111", " 1\n"));
    assert!(rule.verify("111", "\u{3000}1\t"));
    assert!(!rule.verify("111", "1 1"));
    assert!(!rule.verify("111", ""));
}

#[test]
fn completions_balance() {
    fn is_balanced(s: &str) -> bool {
        let mut depth = 0i32;
        for c in s.chars() {
            if c == '(' {
                depth += 1;
            } else if depth == 0 {
                return false;
            } else {
                depth -= 1;
            }
        }
        depth == 0
    }
    let rule = DyckRule { max_depth: 3, min_depth: 1 };
    let mut rng = HarnessRng::new(21);
    for _ in 0..200 {
        let q = rule.render_query(&mut rng);
        let combined = format!("{}{}", q.input, q.target);
        assert!(is_balanced(&combined), "unbalanced: {combined:?}");
        assert!(rule.verify(&q.input, &q.target));
        assert!(!rule.verify(&q.input, &format!("{}(", q.target)));
    }
}

#[test]
fn track_b_reaches_deeper() {
    let task = DyckTask;
    let mut rng = HarnessRng::new(22);
    let b = task.sample_rule(&mut rng, Track::B);
    let mut max_seen = 0;
    for _ in 0..200 {
        let q = b.render_query(&mut rng);
        let combined = format!("{}{}", q.input, q.target);
        let mut depth = 0;
        let mut peak = 0;
        for c in combined.chars() {
            if c == '(' {
                depth += 1;
                peak = std::cmp::max(peak, depth);
            } else {
                depth -= 1;
            }
        }
        max_seen = std::cmp::max(max_seen, peak);
        assert!(peak <= 6, "track B exceeded its cap");
    }
    assert!(max_seen >= 4, "track B never exceeded depth 3");
}

#[test]
fn completion_closes_what_is_open() {
    assert_eq!(DyckRule::completion("(()("), "))");
    assert_eq!(DyckRule::completion(")))"), "");
    assert_eq!(DyckRule::completion(""), "");
    let rule = DyckRule { max_depth: 3, min_depth: 1 };
    assert!(rule.verify("((", " ))\n"));
    assert!(!rule.verify("((", ")"));
}

#[test]
fn track_b_settles_from_a_lucky_and_an_unlucky_state() {
    let rule = DyckRule { max_depth: 6, min_depth: 4 };
    for seed in [1445u64, 0, u64::MAX] {
        let mut rng = HarnessRng::new(seed);
        let d = rule.render_demo(&mut rng);
        assert!(!d.output.is_empty());
        assert_eq!(d.output, DyckRule::completion(&d.input));
    }
}

#[test]
fn maps_apply_and_verify() {
    let task = SubstFstTask;
    let mut rng = HarnessRng::new(31);
    for _ in 0..50 {
        let rule = task.sample_rule(&mut rng, Track::A);
        let q = rule.render_query(&mut rng);
        assert!(rule.verify(&q.input, &q.target));
        assert!(!rule.verify(&q.input, &format!("{}q", q.target)));
    }
}

#[test]
fn tracks_use_disjoint_alphabets() {
    let task = SubstFstTask;
    let mut rng = HarnessRng::new(32);
    let mut a_syms = HashSet::new();
    let mut b_syms = HashSet::new();
    for _ in 0..20 {
        let a = task.sample_rule(&mut rng, Track::A);
        let b = task.sample_rule(&mut rng, Track::B);
        let q = a.render_query(&mut rng);
        a_syms.extend(q.input.bytes());
        let q = b.render_query(&mut rng);
        b_syms.extend(q.input.bytes());
    }
    assert!(a_syms.is_disjoint(&b_syms), "alphabet leak between tracks");
}

#[test]
fn unmapped_bytes_become_question_marks() {
    let rule = SubstRule { source: b"abc".to_vec(), map: b"bca".to_vec() };
    assert_eq!(rule.apply("abcz"), "bca?");
    // One mark per byte: this letter has two.
    assert_eq!(rule.apply("a\u{e9}"), "b??");
}

#[test]
fn fst_demos_never_copy_query_target() {
    fuzz_no_demo_equals_target(&SubstFstTask, 301, 200);
}

#[test]
fn oracle_states_map_and_keeps_targets() {
    let task = SubstFstOracleTask;
    let mut rng = HarnessRng::new(303);
    let rule = task.sample_rule(&mut rng, Track::A);
    let header = rule.oracle_header().expect("oracle states its map");
    assert!(header.starts_with("MAP "));
    // Header ships first in the built prompt; the target still verifies
    // against the same rule (header is context, never scored).
    let proto = DemoProtocol::default();
    let inst = proto.build(task.name(), task.stage(), Track::A, &rule, &mut rng);
    let prompt = String::from_utf8(inst.prompt).unwrap();
    assert!(prompt.starts_with(&format!("{header}\n")), "header first");
    let target = String::from_utf8(inst.target).unwrap();
    assert!(rule.verify(&inst.info.query_input, &target));
}

#[test]
fn oracle_header_spells_every_pair() {
    let rule = OracleSubstRule(SubstRule { source: b"abc".to_vec(), map: b"cab".to_vec() });
    assert_eq!(rule.oracle_header(), Some("MAP a->c b->a c->b".to_string()));
    let none = OracleSubstRule(SubstRule { source: vec![], map: vec![] });
    assert_eq!(none.oracle_header(), Some("MAP ".to_string()));
}

#[test]
fn oracle_demos_never_copy_query_target() {
    fuzz_no_demo_equals_target(&SubstFstOracleTask, 304, 200);
}

#[test]
fn fixed_map_is_constant_across_tracks_and_calls() {
    let task = SubstFstFixedTask;
    let mut rng = HarnessRng::new(305);
    let a = task.sample_rule(&mut rng, Track::A);
    let b = task.sample_rule(&mut rng, Track::B);
    // Identical rule both tracks; no header (pure weight memorization).
    assert!(a.oracle_header().is_none());
    let qa = a.render_query(&mut rng);
    let qb = b.render_query(&mut rng);
    assert!(a.verify(&qa.input, &qa.target));
    assert!(b.verify(&qb.input, &qb.target));
    // Fixed point-free constant map: never the identity copy.
    assert_eq!(qa.target.len(), qa.input.len());
    assert_ne!(qa.target, qa.input);
}

#[test]
fn fixed_demos_never_copy_query_target() {
    fuzz_no_demo_equals_target(&SubstFstFixedTask, 306, 200);
}

#[test]
fn ops_apply_and_verify() {
    let r = CopyRule { op: CopyOp::Reverse, alphabet: b"abc".to_vec() };
    assert_eq!(r.apply("abca"), "acba");
    assert!(r.verify("abca", "acba"));
    assert!(!r.verify("abca", "abca"));
    let r = CopyRule { op: CopyOp::Repeat, alphabet: b"xy".to_vec() };
    assert_eq!(r.apply("xy"), "xyxy");
}

#[test]
fn sampled_rules_verify_own_queries() {
    let task = CopyTask;
    let mut rng = HarnessRng::new(51);
    for _ in 0..50 {
        for track in [Track::A, Track::B] {
            let rule = task.sample_rule(&mut rng, track);
            let q = rule.render_query(&mut rng);
            assert!(rule.verify(&q.input, &q.target), "track {track:?}");
            assert!(q.target.len() < 20);
        }
    }
}

#[test]
fn copy_demos_never_copy_query_target() {
    fuzz_no_demo_equals_target(&CopyTask, 302, 200);
}

#[test]
fn continuation_follows_motif() {
    let task = PeriodicTask;
    let mut rng = HarnessRng::new(41);
    for _ in 0..50 {
        let rule = task.sample_rule(&mut rng, Track::A);
        let q = rule.render_query(&mut rng);
        assert!(rule.verify(&q.input, &q.target));
        assert!(!rule.verify(&q.input, "zzzzzzzz"));
    }
}

#[test]
fn motifs_are_nontrivial() {
    let task = PeriodicTask;
    let mut rng = HarnessRng::new(42);
    for _ in 0..20 {
        let rule = task.sample_rule(&mut rng, Track::A);
        let q = rule.render_query(&mut rng);
        assert!(!q.target.is_empty());
    }
}

#[test]
fn motif_extends_across_the_cut() {
    let rule = PeriodicRule { motif: b"abc".to_vec() };
    assert_eq!(rule.extend(4, 3), ("abca".to_string(), "bca".to_string()));
    assert!(rule.verify("abca", "bcabca"));
    assert!(!rule.verify("abca", "abc"));
    assert!(!rule.verify("abca", ""));
}

#[test]
fn periodic_demos_never_copy_query_target() {
    fuzz_no_demo_equals_target(&PeriodicTask, 304, 200);
}

#[test]
fn executor_matches_renderer() {
    let rule = ScanRule { track: Track::B };
    let mut rng = HarnessRng::new(61);
    for _ in 0..200 {
        let q = rule.render_query(&mut rng);
        assert_eq!(ScanRule::execute(&q.input).as_deref(), Some(q.target.as_str()));
        assert!(rule.verify(&q.input, &q.target));
    }
}

#[test]
fn executor_reference_cases() {
    assert_eq!(ScanRule::execute("jump twice and walk").as_deref(), Some("JJW"));
    assert_eq!(ScanRule::execute("turn left thrice").as_deref(), Some("LLL"));
    assert_eq!(ScanRule::execute("walk").as_deref(), Some("W"));
    assert_eq!(ScanRule::execute("bogus").as_deref(), None);
}

#[test]
fn executor_trims_clauses_and_rejects_empty_ones() {
    assert_eq!(ScanRule::execute(" jump  and  walk ").as_deref(), Some("JW"));
    assert_eq!(ScanRule::execute("jump and ").as_deref(), None);
    assert_eq!(ScanRule::execute("").as_deref(), None);
    assert_eq!(ScanRule::execute("jump  twice").as_deref(), None);
}

#[test]
fn scan_corruption_changes_the_count() {
    let rule = ScanRule { track: Track::A };
    let mut rng = HarnessRng::new(62);
    for output in ["", "J", "JWLR"] {
        for _ in 0..20 {
            let bad = rule.corrupt(&mut rng, output);
            assert_ne!(bad, output);
            assert_eq!(bad.len().abs_diff(output.len()), 1);
        }
    }
}

#[test]
fn stock_corruption_flips_one_symbol() {
    let mut rng = HarnessRng::new(63);
    assert_eq!(flip_symbol(&mut rng, ""), "X");
    for _ in 0..50 {
        let bad = flip_symbol(&mut rng, "zzzz");
        assert_eq!(bad.len(), 4);
        assert_eq!(bad.bytes().filter(|b| *b != b'z').count(), 1);
        // Replacing one byte of a longer character leaves no valid string.
        assert_eq!(flip_symbol(&mut rng, "\u{e9}"), "X");
    }
    for _ in 0..5000 {
        for output in ["0", "1", "a", "*", "X", "01"] {
            let bad = flip_symbol(&mut rng, output);
            assert_ne!(bad, output);
            assert_eq!(bad.len(), output.len());
            let changed: Vec<u8> = bad
                .bytes()
                .zip(output.bytes())
                .filter(|(x, y)| x != y)
                .map(|(x, _)| x)
                .collect();
            assert_eq!(changed.len(), 1);
            assert!(b"01ab()[]+-*".contains(&changed[0]));
        }
    }
}

#[test]
fn conjunctions_join_any_two_texts() {
    let texts = ["jump", "walk twice", " turn left ", "", "bogus", "jump and", "and walk", "and", " ",
        "walk and jump thrice"];
    for a in texts {
        for b in texts {
            let want = match (ScanRule::execute(a), ScanRule::execute(b)) {
                (Some(x), Some(y)) => Some(x + &y),
                _ => None,
            };
            assert_eq!(ScanRule::execute(&format!("{a} and {b}")), want, "{a:?} {b:?}");
        }
    }
    assert_eq!(ScanRule::execute(""), None);
}

#[test]
fn duplicates_do_not_shadow() {
    let mut r = TaskRegistry::default();
    r.register(Box::new(SubstFstTask));
    r.register(Box::new(ParityTask));
    r.register(Box::new(SubstFstTask));
    assert_eq!(r.names(), vec!["subst-fst", "parity", "subst-fst"]);
    assert_eq!(r.get("parity").unwrap().name(), "parity");
    assert!(r.get("dyck1").is_none());
    r.register(Box::new(DyckTask));
    assert_eq!(r.get("dyck1").unwrap().name(), "dyck1");
    assert_eq!(r.len(), 4);
}

/// The lengths that a task's demo and query inputs take.
fn regimes(task: &dyn Task) -> (Vec<usize>, Vec<usize>) {
    let mut rng = HarnessRng::new(77);
    let mut demos = vec![];
    let mut queries = vec![];
    for _ in 0..200 {
        for track in [Track::A, Track::B] {
            let rule = task.sample_rule(&mut rng, track);
            demos.push(rule.render_demo(&mut rng).input.len());
            queries.push(rule.render_query(&mut rng).input.len());
        }
    }
    (demos, queries)
}

#[test]
fn demo_and_query_lengths_never_meet() {
    let (demos, queries) = regimes(&DyckTask);
    assert!(demos.iter().all(|n| (2..8).contains(n)));
    assert!(queries.iter().all(|n| (8..24).contains(n)));
    let (demos, queries) = regimes(&ParityTask);
    assert!(demos.iter().all(|n| (4..12).contains(n)));
    assert!(queries.iter().all(|n| (16..32).contains(n)));
    let (demos, queries) = regimes(&PeriodicTask);
    assert!(demos.iter().all(|n| (6..16).contains(n)));
    assert!(queries.iter().all(|n| (16..48).contains(n)));
    for task in [&CopyTask as &dyn Task, &SubstFstTask, &SubstFstFixedTask, &SubstFstOracleTask] {
        let (demos, queries) = regimes(task);
        assert!(demos.iter().all(|n| (2..8).contains(n)));
        assert!(queries.iter().all(|n| (8..20).contains(n)));
    }
}

#[test]
fn rules_share_their_task_policy() {
    let registry = TaskRegistry::builtin();
    for name in registry.names() {
        let task = registry.get(name).unwrap();
        assert_eq!(task.name(), name);
        let rule = task.sample_rule(&mut HarnessRng::new(9), Track::B);
        let balanced = |p: &DemoPolicy| match p {
            DemoPolicy::ExcludeAnswer => None,
            DemoPolicy::Balanced { classes } => Some(classes.clone()),
        };
        assert_eq!(balanced(&task.demo_policy()), balanced(&rule.demo_policy()));
    }
}
