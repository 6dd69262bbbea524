//! Sampling, budgets, splits, decoding, stages.

use generalist::data::int_vec;
use generalist::fail_fast::Watchdog;
use generalist::harness::{generate, Experiment};
use generalist::tasks::{Demo, HarnessRng, Instance, InstanceInfo, TaskRegistry, Track};
use generalist::train::decode::{decode_plan, judge, Decoder, Span, EVAL_CHUNK};
use generalist::train::inputs::{batch_fits, step_batch, truth_of};
use generalist::train::stage::{
    ckpt_path, eval_line, length_sorted, log_path, prepare, report_mb, stage_rng, vram_mb, StageAction,
    StageClock,
};
use generalist::train::{
    eval_split, final_eval_passes, patch_free_inputs, ponder_warmup, top_bucket_rows, Share,
    TrainConfig, Trainer,
};

fn parity_pool(per_cell: usize) -> Vec<Instance> {
    let registry = TaskRegistry::builtin();
    let exp = Experiment {
        tasks: vec!["parity".to_string()],
        per_cell,
        seeds: vec![0],
        ..Default::default()
    };
    generate(&exp, &registry)
}

fn inst(prompt: &[u8], target: &[u8]) -> Instance {
    Instance { prompt: prompt.to_vec(), target: target.to_vec(), info: InstanceInfo::test_info() }
}

#[test]
fn banded_batches_are_contiguous_windows() {
    let pool = length_sorted(&parity_pool(16));
    let mut rng = HarnessRng::new(3);
    for _ in 0..20 {
        let batch = Trainer::sample_banded_batch(&mut rng, &pool, 8);
        assert_eq!(batch.len(), 8);
        // Contiguous in the sorted pool: lengths non-decreasing.
        let lens: Vec<usize> = batch.iter().map(|i| i.prompt.len() + i.target.len()).collect();
        assert!(lens.windows(2).all(|w| w[0] <= w[1]));
        // Tight band: window span small relative to pool range.
        assert!(*lens.last().unwrap() - lens[0] <= 200);
    }
    let whole = Trainer::sample_banded_batch(&mut rng, &pool, 1000);
    assert_eq!(whole.len(), pool.len());
}

#[test]
fn length_sort_is_stable() {
    let pool = vec![inst(b"bb", b"1"), inst(b"a", b"1"), inst(b"c", b"12"), inst(b"d", b"2")];
    let sorted: Vec<Vec<u8>> = length_sorted(&pool).into_iter().map(|i| i.prompt).collect();
    assert_eq!(sorted, vec![b"a".to_vec(), b"d".to_vec(), b"bb".to_vec(), b"c".to_vec()]);
    assert!(length_sorted(&[]).is_empty());
}

#[test]
fn batches_sample_with_replacement() {
    let pool = parity_pool(8);
    let mut rng = HarnessRng::new(99);
    let mut twin = HarnessRng::new(99);
    let batch = Trainer::sample_batch(&mut rng, &pool, 64);
    assert_eq!(batch.len(), 64);
    for x in &batch {
        assert_eq!(x.prompt, pool[twin.below(pool.len())].prompt);
    }
}

#[test]
fn free_schedule_mapping() {
    let mut trainer = Trainer::new();
    let sched = [1.0, 0.5, 0.2];
    let met = |ce: f64| sched.iter().map(|t| ce < *t).collect::<Vec<bool>>();
    trainer.update_free_schedule(&met(1.5));
    assert_eq!(trainer.free_k, 0);
    trainer.update_free_schedule(&met(0.9));
    assert_eq!(trainer.free_k, 1);
    trainer.update_free_schedule(&met(0.4));
    assert_eq!(trainer.free_k, 2);
    trainer.update_free_schedule(&met(0.1));
    assert_eq!(trainer.free_k, 3);
}

#[test]
fn patch_free_inputs_only_touches_target_prefix() {
    // prompt [10,11,12] + target [20,21] (incl EOS slot at index 4).
    let base = vec![vec![10u8, 11, 12, 20, 21]];
    let prompt_lens = vec![3usize];
    // Proposal predicts its flat index everywhere.
    let pred: Vec<i64> = (0..10).collect();
    let out = patch_free_inputs(&base, &prompt_lens, &pred, 10, 2);
    assert_eq!(out, vec![vec![10u8, 11, 12, 3, 4]]);
    // K larger than the target only patches the target region.
    let out = patch_free_inputs(&base, &prompt_lens, &pred, 10, 99);
    assert_eq!(out, vec![vec![10u8, 11, 12, 3, 4]]);
    // K=0 is identity.
    let out = patch_free_inputs(&base, &prompt_lens, &pred, 10, 0);
    assert_eq!(out, base);
}

#[test]
fn patches_read_their_own_row_and_wrap_to_bytes() {
    let base = vec![vec![1u8, 2, 3], vec![4, 5, 6]];
    let pred: Vec<i64> = vec![0, 0, 0, 0, 300, -1, 0, 0];
    let out = patch_free_inputs(&base, &[3, 0], &pred, 4, 2);
    assert_eq!(out, vec![vec![1u8, 2, 3], vec![44, 255, 6]]);
}

#[test]
fn top_bucket_cap_only_clips_512() {
    assert_eq!(top_bucket_rows(512, 6), 2);
    assert_eq!(top_bucket_rows(512, 2), 2);
    assert_eq!(top_bucket_rows(512, 1), 1);
    assert_eq!(top_bucket_rows(256, 6), 6);
    assert_eq!(top_bucket_rows(64, 8), 8);
}

#[test]
fn micro_batches_fit_their_budget() {
    let long = vec![inst(&[b'a'; 300], b"b"); 9];
    let mut rng = HarnessRng::new(1);
    assert_eq!(Trainer::next_micro(&mut rng, &long, 9).len(), 2);
    let middle = vec![inst(&[b'a'; 200], b"b"); 20];
    assert_eq!(Trainer::next_micro(&mut rng, &middle, 20).len(), 8);
    let short = vec![inst(b"ab", b"b"); 50];
    assert_eq!(Trainer::next_micro(&mut rng, &short, 50).len(), 32);
    assert_eq!(Trainer::next_micro(&mut rng, &short, 3).len(), 3);
}

#[test]
fn final_eval_passes_gate_shuffle() {
    let off = final_eval_passes(4, false);
    assert_eq!(off.len(), 1);
    assert_eq!(off[0].0, "final");
    assert!(off[0].1.is_none());
    let on = final_eval_passes(4, true);
    assert_eq!(on.len(), 2);
    assert_eq!(on[1].0, "final-shuffled");
    assert_eq!(on[1].1, Some(vec![3, 2, 1, 0]));
}

#[test]
fn ponder_warmup_ramps_linearly() {
    let base = 0.001;
    let n = 100;
    let weight = |step, warmup| {
        let s = ponder_warmup(step, warmup);
        base * (s.part as f64 / s.whole as f64)
    };
    // Off: full weight regardless of step.
    assert_eq!(weight(0, 0), base);
    assert_eq!(weight(57, 0), base);
    // Ramp: 0 at step 0, full at/after N, midpoint ~half.
    assert_eq!(weight(0, n), 0.0);
    assert!((weight(50, n) - base * 0.5).abs() < 1e-12);
    assert!((weight(n, n) - base).abs() < 1e-12);
    assert_eq!(weight(n + 10, n), base);
    assert_eq!(ponder_warmup(3, 7), Share { part: 3, whole: 7 });
    assert_eq!(ponder_warmup(8, 7), Share { part: 7, whole: 7 });
}

#[test]
fn splits_take_cell_prefixes() {
    let registry = TaskRegistry::builtin();
    let exp = Experiment { per_cell: 3, seeds: vec![0, 1], ..Default::default() };
    let pool = generate(&exp, &registry);
    let small = eval_split(&pool, 2);
    let large = eval_split(&pool, 5);
    assert_eq!(small.len(), 12 * 2);
    assert_eq!(large.len(), 12 * 5);
    for c in 0..12 {
        for i in 0..2 {
            assert_eq!(small[c * 2 + i].prompt, large[c * 5 + i].prompt);
        }
    }
    // Cells come in the order of their names.
    let names: Vec<&str> = small.iter().map(|i| i.info.task).collect();
    assert!(names.windows(2).all(|w| w[0] <= w[1]));
    assert_eq!(names[0], "copy-rev-rep");
    assert_eq!(small[0].info.track, Track::A);
    assert_eq!(eval_split(&pool, 100).len(), pool.len());
    assert!(eval_split(&pool, 0).is_empty());
}

#[test]
fn decode_plans_cover_every_row() {
    let mut pool = vec![inst(&[b'a'; 400], b"b"); 20];
    pool.extend(vec![inst(b"ab", b"b"); 5]);
    // Long rows bucket to 512: 16 fit the budget.
    let plan = decode_plan(&pool, 64, 18, 512);
    assert_eq!(
        plan,
        vec![
            Span { start: 0, end: 16 },
            Span { start: 16, end: 18 },
            Span { start: 18, end: 25 },
        ]
    );
    assert_eq!(decode_plan(&pool, 64, EVAL_CHUNK, 512).len(), 4);
    assert_eq!(decode_plan(&pool, 64, 0, 512).len(), 25);
    assert!(decode_plan(&[], 64, 8, 512).is_empty());
}

#[test]
fn decoding_stops_rows_one_by_one() {
    let mut a = inst(b"ab", b"xy");
    a.info.demos = vec![Demo { input: "q".to_string(), output: "xy".to_string() }];
    let group = vec![a, inst(b"a", b"z"), inst(b"", b"q")];
    let mut d = Decoder::new(&group, 3, 512);
    assert!(d.fits());
    let input = d.next_input().unwrap();
    assert_eq!(input.lens, vec![3, 2, 1]);
    assert_eq!(input.width, 64);
    assert_eq!(input.wanted, vec![0, 1, 2]);
    let ids = int_vec(&input.tokens).unwrap();
    assert_eq!(&ids[..4], &[0, 97, 98, 0]);
    assert_eq!(&ids[64..67], &[0, 97, 0]);
    d.accept(&[120, 1, 113], 4);
    let input = d.next_input().unwrap();
    assert_eq!(input.wanted, vec![0, 2]);
    assert_eq!(input.lens, vec![4, 2, 2]);
    // The answer to the stopped row is not looked at.
    d.accept(&[121, 77, 1], 5);
    let input = d.next_input().unwrap();
    assert_eq!(input.wanted, vec![0]);
    d.accept(&[1, 77, 77], 6);
    assert!(d.next_input().is_none());
    assert_eq!(d.mean_steps(), 5);
    let rs = d.records(&group, 7u8, &vec![1u8, 2]);
    assert_eq!(rs.len(), 3);
    assert_eq!((rs[0].correct, rs[0].copied), (true, true));
    assert_eq!((rs[1].correct, rs[1].copied), (false, false));
    assert_eq!((rs[2].correct, rs[2].copied), (true, false));
    assert_eq!(rs[0].steps_used, 5);
    assert_eq!(rs[0].mean_halt, 7);
    assert_eq!(rs[2].block_halt, vec![1, 2]);
    assert_eq!(rs[0].task, "test");
}

#[test]
fn decoding_respects_both_limits() {
    // The model's limit freezes a row before it is fed again.
    let group = vec![inst(b"abcd", b"x")];
    let mut d = Decoder::new(&group, 10, 6);
    assert!(d.next_input().is_some());
    d.accept(&[120], 1);
    assert!(d.next_input().is_none());
    // The byte limit ends the rounds.
    let mut d = Decoder::new(&group, 1, 512);
    assert!(d.next_input().is_some());
    d.accept(&[120], 1);
    assert!(d.next_input().is_none());
    let rs = d.records(&group, 0u8, &vec![]);
    assert!(rs[0].correct);
    let none = Decoder::new(&group, 0, 512);
    assert_eq!(none.mean_steps(), 0);
}

#[test]
fn malformed_bytes_read_as_replacements() {
    // Two different malformed outputs read alike, a valid one does not.
    let group = vec![inst(b"a", &[0xFF]), inst(b"a", &[0xC3, 0xA9])];
    let mut d = Decoder::new(&group, 2, 512);
    d.next_input().unwrap();
    d.accept(&[0xFE, 0xC3], 1);
    d.next_input().unwrap();
    d.accept(&[1, 0xA9], 1);
    let rs = d.records(&group, 0u8, &vec![]);
    assert!(rs[0].correct);
    assert!(rs[1].correct);
    let demos = vec![Demo { input: "a".to_string(), output: "\u{e9}".to_string() }];
    assert_eq!(judge("\u{e9}", "e", &demos), (false, true));
}

#[test]
fn stages_split_their_pool() {
    let registry = TaskRegistry::builtin();
    let exp = Experiment { per_cell: 20, seeds: vec![0], ..Experiment::stage0_trio() };
    let pools = prepare(&exp, &registry);
    assert_eq!(pools.train.len(), 240);
    assert_eq!(pools.eval_set.len(), 12 * 16);
    assert_eq!(pools.final_set.len(), 240);
    let lens: Vec<usize> = pools.train.iter().map(|i| i.prompt.len() + i.target.len()).collect();
    assert!(lens.windows(2).all(|w| w[0] <= w[1]));
    let mut a = stage_rng(5);
    let mut b = HarnessRng::new(5 ^ 0x9E37_79B9_7F4A_7C15);
    assert_eq!(a.next_u64(), b.next_u64());
}

#[test]
fn paths_and_lines() {
    assert_eq!(ckpt_path("out", 0), "out/step000000.mpk");
    assert_eq!(ckpt_path("out", 512), "out/step000512.mpk");
    assert_eq!(ckpt_path("", 1234567), "/step1234567.mpk");
    assert_eq!(log_path("out"), "out/run.jsonl");
    assert_eq!(
        eval_line("{\"a\":1}", "self", Some(40)),
        "{\"a\":1,\"eval\":\"self\",\"step\":40}\n"
    );
    assert_eq!(eval_line("{\"a\":1}", "final", None), "{\"a\":1,\"eval\":\"final\"}\n");
}

#[test]
fn reports_name_memory_in_use() {
    assert_eq!(report_mb("memory.used [MiB]\n 1234\n"), Some(1234));
    assert_eq!(report_mb("memory.used [MiB]\r\n+7 MiB\r\n"), Some(7));
    assert_eq!(report_mb("memory.used [MiB]\n"), None);
    assert_eq!(report_mb("memory.used [MiB]\n\n9"), None);
    assert_eq!(report_mb("h\nn/a"), None);
    assert_eq!(report_mb("h\n18446744073709551615"), Some(u64::MAX));
    assert_eq!(report_mb("h\n18446744073709551616"), None);
    assert_eq!(report_mb("h\n+"), None);
    assert_eq!(vram_mb(b"memory.used [MiB]\n 1234\n"), Some(1234));
    // Malformed bytes read as replacements, which are no digits.
    assert_eq!(vram_mb(b"\xff\n 12\n"), Some(12));
    assert_eq!(vram_mb(b"h\n1\xff2\n"), None);
}

fn trace(train: &TrainConfig, extras: usize, passes: usize) -> (Vec<String>, String) {
    let mut clock = StageClock::new(train, extras, passes);
    let mut out = vec![];
    loop {
        out.push(match clock.next() {
            StageAction::Save { path } => format!("save {path}"),
            StageAction::Warmup { share } => format!("warm {}/{}", share.part, share.whole),
            StageAction::Micro { step, accum } => format!("micro {step} of {accum}"),
            StageAction::Update { step } => format!("update {step}"),
            StageAction::Log { step } => format!("log {step}"),
            StageAction::Eval { step, set } => format!("eval {step} {set}"),
            StageAction::Final { pass } => format!("final {pass}"),
            StageAction::Finish => break,
        });
    }
    (out, clock.outcome().last_ckpt)
}

#[test]
fn stages_follow_their_schedule() {
    let train = TrainConfig {
        steps: 3,
        accum_steps: 2,
        log_every: 2,
        ckpt_every: 2,
        eval_every: 1,
        eval_start_step: 2,
        ponder_warmup_steps: 2,
        ckpt_dir: "d".to_string(),
        ..TrainConfig::new()
    };
    let (got, last) = trace(&train, 1, 2);
    assert_eq!(
        got,
        vec![
            "save d/step000000.mpk",
            "warm 0/2",
            "micro 0 of 2",
            "micro 0 of 2",
            "update 0",
            "log 0",
            "save d/step000000.mpk",
            "warm 1/2",
            "micro 1 of 2",
            "micro 1 of 2",
            "update 1",
            "warm 2/2",
            "micro 2 of 2",
            "micro 2 of 2",
            "update 2",
            "log 2",
            "save d/step000002.mpk",
            "eval 2 0",
            "eval 2 1",
            "save d/step000003.mpk",
            "final 0",
            "final 1",
        ]
    );
    assert_eq!(last, "d/step000003.mpk");
}

#[test]
fn stages_without_steps_only_snapshot() {
    let train = TrainConfig { steps: 0, ckpt_dir: "d".to_string(), ..TrainConfig::new() };
    let (got, last) = trace(&train, 0, 1);
    assert_eq!(got, vec!["save d/step000000.mpk", "save d/step000000.mpk", "final 0"]);
    assert_eq!(last, "d/step000000.mpk");
}

#[test]
fn evaluation_starts_at_its_start_step() {
    let evals = |train: &TrainConfig| -> Vec<String> {
        trace(train, 0, 0).0.into_iter().filter(|l| l.starts_with("eval")).collect()
    };
    let train = TrainConfig { steps: 5, eval_every: 2, accum_steps: 0, ..TrainConfig::new() };
    assert_eq!(evals(&train), vec!["eval 0 0", "eval 2 0", "eval 4 0"]);
    assert!(trace(&train, 0, 0).0.contains(&"micro 2 of 1".to_string()));
    // One step of the standing schedule.
    let train = TrainConfig { steps: 1, ..TrainConfig::new() };
    assert_eq!(evals(&train), vec!["eval 0 0"]);
    let train = TrainConfig { steps: 8, eval_every: 3, eval_start_step: 1, ..TrainConfig::new() };
    assert_eq!(evals(&train), vec!["eval 1 0", "eval 4 0", "eval 7 0"]);
    // Set high: never.
    let train = TrainConfig { steps: 4, eval_every: 1, eval_start_step: 4, ..TrainConfig::new() };
    assert!(evals(&train).is_empty());
    // Without a cadence only the start step is.
    let train = TrainConfig { steps: 4, eval_every: 0, eval_start_step: 2, ..TrainConfig::new() };
    assert_eq!(evals(&train), vec!["eval 2 0"]);
}

#[test]
fn watchdog_notices_silence() {
    let mut w = Watchdog::new(900, 1000);
    assert_eq!(w.poll_secs(), 450);
    assert_eq!(w.stalled(1900), None);
    assert_eq!(w.stalled(1901), Some(901));
    w.ping_step(7, 1901);
    assert_eq!(w.last_step, 7);
    assert_eq!(w.stalled(2000), None);
    // A clock that runs backwards is no stall.
    assert_eq!(w.stalled(5), None);
    assert_eq!(Watchdog::new(0, 0).poll_secs(), 5);
}

#[test]
fn proposals_reach_inputs_only() {
    let (a, b) = (inst(b"ab", b"xyz"), inst(b"c", b"d"));
    let micro = vec![&a, &b];
    let truth = truth_of(&micro);
    assert_eq!(truth.width, 64);
    // Proposals say where they stand.
    let pred: Vec<i64> = (0..128).collect();
    let col = step_batch(&micro, &pred, 2);
    let ids = int_vec(&col.tokens).unwrap();
    assert_eq!(&ids[..7], &[97, 98, 2, 3, 122, 1, 0]);
    assert_eq!(&ids[64..68], &[99, 65, 66, 0]);
    assert_eq!(int_vec(&col.targets), int_vec(&truth.targets));
    assert_eq!(col.loss_mask, truth.loss_mask);
    assert_eq!(col.lengths, vec![6, 3]);
    assert_eq!(col.prompt_lens, vec![2, 1]);
    // Nothing runs free: inputs are the truth, and nothing is proposed.
    let col = step_batch(&micro, &[], 0);
    assert_eq!(int_vec(&col.tokens), int_vec(&truth.tokens));
    assert_eq!(int_vec(&col.tokens), int_vec(&col.targets));
}

#[test]
fn batches_fit_up_to_the_limit() {
    assert!(batch_fits(&[6, 9, 3], 9));
    assert!(!batch_fits(&[6, 9, 3], 8));
    assert!(batch_fits(&[], 0));
}

#[test]
fn oversized_prompts_are_noticed_before_they_are_fed() {
    // A row that the model's limit freezes at once still takes part in the
    // batch: it must fit a bucket as long as another row runs.
    let group = vec![inst(&[b'a'; 600], b"x"), inst(b"a", b"x")];
    assert!(!Decoder::new(&group, 4, 512).fits());
    let alone = vec![inst(&[b'a'; 600], b"x")];
    let mut d = Decoder::new(&alone, 4, 512);
    assert!(d.fits());
    assert!(d.next_input().is_none());
}
