//! Dispatch, collation, cells, metrics.

use burn::tensor::TensorData;
use generalist::data::{int_scalar, int_vec, read_back};
use generalist::harness::batch::{collate_seqs, PAD, TOP_BUCKET};
use generalist::harness::cells::record_cells;
use generalist::harness::metrics::{halt_column, nearest_rank, Part};
use generalist::harness::run::Chain;
use generalist::harness::{
    bucket_len, collate, generate, summarize, Experiment, Jsonl, PlannedExperiment, Record,
    RunConfig, BUCKET_EDGES, EOS,
};
use generalist::train::stage::StageOutcome;
use generalist::tasks::{Instance, InstanceInfo, TaskRegistry, Track};

fn inst(prompt: &[u8], target: &[u8]) -> Instance {
    Instance { prompt: prompt.to_vec(), target: target.to_vec(), info: InstanceInfo::test_info() }
}

#[test]
fn collate_masks_prompt_and_pad() {
    let batch = collate(&[inst(b"ab->", b"cd"), inst(b"abc->", b"d")]);
    // Bucketed to edge 64; real lengths recorded exactly.
    assert_eq!(batch.tokens.shape.as_slice(), &[2, 64]);
    assert_eq!(batch.width, 64);
    assert_eq!(batch.lengths, vec![7, 7]);
    assert_eq!(batch.prompt_lens, vec![4, 5]);
    let m: Vec<f32> = batch.loss_mask.iter().map(|b| if *b { 1.0 } else { 0.0 }).collect();
    // Row 0: prompt "ab->" (4) masked, "cd"+EOS scored, rest pad.
    assert_eq!(&m[..8], &[0., 0., 0., 0., 1., 1., 1., 0.]);
    // Row 1 starts at offset 64: prompt "abc->" (5) masked, "d"+EOS scored.
    assert_eq!(&m[64..72], &[0., 0., 0., 0., 0., 1., 1., 0.]);
    let ids = int_vec(&batch.tokens).unwrap();
    assert_eq!(ids.len(), 128);
    assert_eq!(&ids[..8], &[97, 98, 45, 62, 99, 100, EOS as i64, PAD as i64]);
    assert_eq!(int_vec(&batch.targets).unwrap(), ids);
}

#[test]
fn bucket_edges_canonicalize() {
    assert_eq!(bucket_len(1), 64);
    assert_eq!(bucket_len(64), 64);
    assert_eq!(bucket_len(65), 128);
    assert_eq!(bucket_len(512), 512);
}

#[test]
fn bucket_edges_are_their_own_buckets() {
    for edge in BUCKET_EDGES {
        assert_eq!(bucket_len(edge), edge);
    }
    for n in 0..TOP_BUCKET {
        assert!(bucket_len(n) <= bucket_len(n + 1));
    }
}

#[test]
fn sequences_collate_to_the_longest() {
    let c = collate_seqs(vec![vec![7; 65], vec![9]], vec![60, 0]);
    assert_eq!(c.width, 128);
    let ids = int_vec(&c.tokens).unwrap();
    assert_eq!(ids[64], 7);
    assert_eq!(ids[65], 0);
    assert_eq!(ids[128], 9);
    assert_eq!(c.loss_mask.iter().filter(|b| **b).count(), 6);
}

#[test]
fn readback_takes_either_width() {
    let longs = TensorData::new(vec![5i64, -6], [2]);
    assert_eq!(int_vec(&longs), Some(vec![5, -6]));
    assert_eq!(int_scalar(&longs), Some(5));
    let shorts = TensorData::new(vec![7i32, -8], [1, 2]);
    assert_eq!(int_vec(&shorts), Some(vec![7, -8]));
    let empty = TensorData::new(Vec::<i64>::new(), [0]);
    assert_eq!(int_scalar(&empty), Some(-1));
    let floats = TensorData::new(vec![1.0f32], [1]);
    assert_eq!(int_vec(&floats), None);
    assert_eq!(int_scalar(&floats), None);
    assert_eq!(read_back(None, Some(vec![3])), Some(vec![3]));
    assert_eq!(read_back(None, None), None);
}

#[test]
fn dispatch_covers_cells_evenly() {
    let registry = TaskRegistry::builtin();
    let cfg = Experiment { per_cell: 16, seeds: vec![0, 1], ..Experiment::stage0_trio() };
    let data = generate(&cfg, &registry);
    // 6 tasks x 2 tracks x 2 seeds x 16
    assert_eq!(data.len(), 384);
    for inst in &data {
        assert!(!inst.prompt.is_empty() && !inst.target.is_empty());
        assert!(inst.info.k <= 8);
    }
}

#[test]
fn generation_is_deterministic() {
    let registry = TaskRegistry::builtin();
    let cfg = Experiment::stage0_trio();
    let a = generate(&cfg, &registry);
    let b = generate(&cfg, &registry);
    assert_eq!(a.len(), b.len());
    for (x, y) in a.iter().zip(b.iter()) {
        assert_eq!(x.prompt, y.prompt);
        assert_eq!(x.target, y.target);
    }
}

#[test]
fn cells_do_not_depend_on_their_neighbours() {
    let registry = TaskRegistry::builtin();
    let all = Experiment { per_cell: 4, seeds: vec![0, 1], ..Default::default() };
    let one = Experiment {
        tasks: vec!["dyck1".to_string()],
        tracks: vec![Track::B],
        per_cell: 3,
        seeds: vec![1],
        ..Default::default()
    };
    let pool = generate(&all, &registry);
    let alone = generate(&one, &registry);
    assert_eq!(alone.len(), 3);
    // Second task, second track, second seed.
    let at = ((1 * 2 + 1) * 2 + 1) * 4;
    for (x, y) in alone.iter().zip(pool[at..].iter()) {
        assert_eq!(x.prompt, y.prompt);
        assert_eq!(y.info.task, "dyck1");
        assert_eq!(y.info.track, Track::B);
    }
}

fn rec(correct: bool, copied: bool) -> Record<String> {
    Record {
        task: "parity".to_string(),
        track: Track::B,
        k: 2,
        correct,
        copied,
        steps_used: 6,
        mean_halt: "4.500".to_string(),
        block_halt: vec!["1.000".to_string(), "1.500".to_string()],
    }
}

#[test]
fn json_is_one_line_per_record() {
    let mut j = Jsonl::default();
    j.push(&rec(true, false));
    j.push(&rec(false, false));
    assert_eq!(j.text().lines().count(), 2);
    assert!(j.text().contains("\"track\":\"B\""));
}

#[test]
fn json_spells_every_field() {
    assert_eq!(
        rec(true, false).to_json(),
        "{\"task\":\"parity\",\"track\":\"B\",\"k\":2,\"correct\":true,\"copied\":false,\
         \"steps\":6,\"halt\":4.500,\"bh\":[1.000,1.500]}"
    );
    let bare = Record { block_halt: vec![], track: Track::A, k: 105, ..rec(false, true) };
    assert_eq!(
        bare.to_json(),
        "{\"task\":\"parity\",\"track\":\"A\",\"k\":105,\"correct\":false,\"copied\":true,\
         \"steps\":6,\"halt\":4.500,\"bh\":[]}"
    );
}

fn halted(correct: bool, copied: bool, block_halt: Vec<u32>) -> Record<u32> {
    Record {
        task: "parity".to_string(),
        track: Track::B,
        k: 2,
        correct,
        copied,
        steps_used: 6,
        mean_halt: 4,
        block_halt,
    }
}

#[test]
fn summary_counts() {
    let rs = vec![
        halted(true, false, vec![1, 8]),
        halted(false, true, vec![3, 2]),
        halted(true, false, vec![5]),
        halted(true, false, vec![]),
    ];
    let s = summarize(&rs);
    assert_eq!(s.n, 4);
    assert_eq!(s.correct, 3);
    assert_eq!(s.copied, 1);
    assert_eq!(s.steps, 24);
    assert_eq!(s.halts, vec![4, 4, 4, 4]);
    assert_eq!(s.block_halt, vec![vec![1, 3, 5], vec![8, 2]]);
    assert_eq!(s.block_halt_correct, vec![vec![1, 5], vec![8]]);
    assert_eq!(s.block_halt_wrong, vec![vec![3], vec![2]]);
    assert_eq!(halt_column(&rs, 7, Part::All), Vec::<u32>::new());
    let none = summarize::<u32>(&[]);
    assert_eq!((none.n, none.correct, none.block_halt.len()), (0, 0, 0));
}

fn measured(correct: bool, copied: bool) -> Record<f32> {
    Record {
        task: "parity".to_string(),
        track: Track::B,
        k: 2,
        correct,
        copied,
        steps_used: 6,
        mean_halt: 4.5,
        block_halt: vec![1.0, 1.5, 1.0, 1.0],
    }
}

fn mean(v: &[f32]) -> f64 {
    v.iter().map(|x| *x as f64).sum::<f64>() / v.len() as f64
}

#[test]
fn summary_math() {
    let rs = vec![
        measured(true, false),
        measured(false, true),
        measured(true, false),
        measured(true, false),
    ];
    let s = summarize(&rs);
    assert_eq!(s.n, 4);
    let n = s.n as f64;
    assert!((s.correct as f64 / n - 0.75).abs() < 1e-9);
    assert!((s.copied as f64 / n - 0.25).abs() < 1e-9);
    assert!((s.steps as f64 / n - 6.0).abs() < 1e-9);
}

#[test]
fn summary_averages_block_halts() {
    let rs = vec![measured(true, false), measured(false, true)];
    let s = summarize(&rs);
    assert_eq!(s.block_halt.len(), 4);
    assert!((mean(&s.block_halt[1]) - 1.5).abs() < 1e-9);
    assert!((mean(&s.block_halt[0]) - 1.0).abs() < 1e-9);
}

#[test]
fn summary_splits_block_halts_by_correctness() {
    let mut a = measured(true, false);
    a.block_halt = vec![1.0, 8.0];
    let mut b = measured(false, true);
    b.block_halt = vec![3.0, 2.0];
    let s = summarize(&[a, b]);
    assert!((mean(&s.block_halt[0]) - 2.0).abs() < 1e-9);
    assert!((mean(&s.block_halt_correct[1]) - 8.0).abs() < 1e-9);
    assert!((mean(&s.block_halt_wrong[1]) - 2.0).abs() < 1e-9);
    // p50 over {1.0, 3.0} (nearest-rank) is 1.0; p90 is 3.0.
    let sorted = &s.block_halt[0];
    assert!((sorted[nearest_rank(2, 1, 2).unwrap()] - 1.0).abs() < 1e-9);
    assert!((sorted[nearest_rank(2, 9, 10).unwrap()] - 3.0).abs() < 1e-9);
}

#[test]
fn nearest_ranks() {
    assert_eq!(nearest_rank(0, 1, 2), None);
    assert_eq!(nearest_rank(1, 9, 10), Some(0));
    assert_eq!(nearest_rank(10, 9, 10), Some(8));
    assert_eq!(nearest_rank(11, 9, 10), Some(9));
    assert_eq!(nearest_rank(5, 1, 2), Some(2));
    assert_eq!(nearest_rank(5, 0, 2), Some(0));
    assert_eq!(nearest_rank(usize::MAX, 7, 7), Some(usize::MAX - 1));
    // The same as rounding the share up in floating point.
    for n in 1usize..300 {
        for (q, part, whole) in [(0.5, 1, 2), (0.9, 9, 10)] {
            let float = ((q * n as f64).ceil() as usize).clamp(1, n) - 1;
            assert_eq!(nearest_rank(n, part, whole), Some(float));
        }
    }
}

#[test]
fn content_is_printable() {
    let registry = TaskRegistry::builtin();
    let cfg = Experiment { per_cell: 40, seeds: vec![3], ..Default::default() };
    for x in generate(&cfg, &registry) {
        assert!(x.prompt.iter().all(|b| (32..127).contains(b) || *b == 10));
        assert!(x.target.iter().all(|b| (32..127).contains(b)));
    }
}

fn planned(name: &str, init_from: Option<&str>) -> PlannedExperiment {
    PlannedExperiment {
        name: name.to_string(),
        manifest: format!("{name}.json"),
        init_from: init_from.map(|p| p.to_string()),
    }
}

#[test]
fn chains_pass_checkpoints_on() {
    let mut chain = Chain::new();
    assert_eq!(chain.init_of(&planned("a", None)), None);
    // Nothing came before: a fresh start.
    assert_eq!(chain.init_of(&planned("a", Some("$prev"))), None);
    let outcome =
        StageOutcome { last_ckpt: "a/end.mpk".to_string(), log_path: "a/run.jsonl".to_string() };
    chain.finish("a".to_string(), vec![inst(b"p", b"t")], outcome);
    assert_eq!(chain.init_of(&planned("b", Some("$prev"))), Some("a/end.mpk".to_string()));
    assert_eq!(chain.init_of(&planned("b", Some("x.mpk"))), Some("x.mpk".to_string()));
    assert_eq!(chain.init_of(&planned("b", None)), None);
    assert_eq!(chain.retained.len(), 1);
    assert_eq!(chain.retained[0].0, "a");
    assert_eq!(chain.retained[0].1[0].prompt, b"p");
}

#[test]
fn smoke_runs_are_small() {
    let run = RunConfig::smoke();
    assert_eq!(run.model.param_count(), 984_065);
    assert_eq!(run.experiment.per_cell, 8);
    assert_eq!(run.experiment.seeds, vec![0]);
    assert_eq!(run.experiment.tasks.len(), 6);
    assert_eq!(run.train.steps, 1000);
    assert_eq!(run.optim.refresh_every, 32);
    let pool = generate(&run.experiment, &TaskRegistry::builtin());
    assert_eq!(pool.len(), 6 * 2 * 8);
}

#[test]
fn records_group_by_task_and_track() {
    let row = |task: &str, track| Record { task: task.to_string(), track, ..halted(true, true, vec![]) };
    let rs = vec![
        row("scan", Track::B),
        row("copy", Track::B),
        row("scan", Track::A),
        row("copy", Track::B),
        row("cop", Track::A),
    ];
    let cells = record_cells(&rs);
    let got: Vec<(&str, Track, Vec<usize>)> =
        cells.iter().map(|c| (c.key.task.as_str(), c.key.track, c.rows.clone())).collect();
    assert_eq!(
        got,
        vec![
            ("cop", Track::A, vec![4]),
            ("copy", Track::B, vec![1, 3]),
            ("scan", Track::A, vec![2]),
            ("scan", Track::B, vec![0]),
        ]
    );
}
