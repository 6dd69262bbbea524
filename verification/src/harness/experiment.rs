//! Experiment dispatch: declarative config in, instances out.
//! Model training/eval consumes the instances; results come back as Records.

use vstd::prelude::*;
use vstd::utf8::*;

use crate::tasks;
use crate::tasks::demo;
use crate::tasks::demo::ProtocolModel;
use crate::tasks::rng::GAMMA;
use crate::tasks::{BoxedRule, DemoProtocol, HarnessRng, Instance, Task, TaskRegistry, Track};
use crate::tasks::{InstanceModel, TaskModel};

verus! {

#[derive(Debug, Clone)]
pub struct Experiment {
    /// Task names (registry keys). Empty = all builtin.
    pub tasks: Vec<String>,
    pub tracks: Vec<Track>,
    /// Instances per (task, track, seed) cell.
    pub per_cell: usize,
    pub seeds: Vec<u64>,
    pub protocol: DemoProtocol,
}

/// Both tracks.
pub open spec fn both_tracks() -> Seq<Track> {
    seq![Track::A, Track::B]
}

impl Default for Experiment {
    fn default() -> (r: Self)
        ensures
            r.tasks@.len() == 0,
            r.tracks@ == both_tracks(),
            r.per_cell == 256,
            r.seeds@ == seq![0u64, 1u64, 2u64],
            r.protocol@ == demo::default_protocol(),
    {
        let mut tracks: Vec<Track> = Vec::new();
        tracks.push(Track::A);
        tracks.push(Track::B);
        let mut seeds: Vec<u64> = Vec::new();
        seeds.push(0);
        seeds.push(1);
        seeds.push(2);
        assert(tracks@ =~= both_tracks());
        assert(seeds@ =~= seq![0u64, 1u64, 2u64]);
        Experiment {
            tasks: Vec::new(),
            tracks,
            per_cell: 256,
            seeds,
            protocol: DemoProtocol::default(),
        }
    }
}

/// The names of the Stage-0 tasks.
pub open spec fn stage0_names() -> Seq<Seq<char>> {
    seq!["parity"@, "dyck1"@, "subst-fst"@, "periodic"@, "copy-rev-rep"@, "scan-tiny"@]
}

impl Experiment {
    /// The standing experiment over the Stage-0 tasks.
    pub fn stage0_trio() -> (r: Self)
        ensures
            tasks::texts(r.tasks@) == stage0_names(),
            r.tracks@ == both_tracks(),
            r.per_cell == 256,
            r.seeds@ == seq![0u64, 1u64, 2u64],
            r.protocol@ == demo::default_protocol(),
    {
        let mut names: Vec<String> = Vec::new();
        names.push("parity".to_string());
        names.push("dyck1".to_string());
        names.push("subst-fst".to_string());
        names.push("periodic".to_string());
        names.push("copy-rev-rep".to_string());
        names.push("scan-tiny".to_string());
        assert(tasks::texts(names@) =~= stage0_names());
        let base: Experiment = Experiment::default();
        Experiment {
            tasks: names,
            tracks: base.tracks,
            per_cell: base.per_cell,
            seeds: base.seeds,
            protocol: base.protocol,
        }
    }
}

/// The bytes `name` folded into `h`.
pub open spec fn folded(h: u64, name: Seq<u8>) -> u64
    decreases name.len(),
{
    if name.len() == 0 {
        h
    } else {
        folded(h, name.drop_last()).wrapping_mul(31).wrapping_add(name.last() as u64)
    }
}

/// The generator state that a (task, track, seed) cell starts in.
pub open spec fn mixed(name: Seq<char>, track: Track, seed: u64) -> u64 {
    folded(seed.wrapping_mul(GAMMA), encode_utf8(name)).wrapping_add(
        match track {
            Track::A => 0xA,
            Track::B => 0xB,
        },
    )
}

/// The generator state that a (task, track, seed) cell starts in.
fn mix(name: &str, track: Track, seed: u64) -> (r: u64)
    ensures
        r == mixed(name@, track, seed),
{
    let bytes: Vec<u8> = crate::text::bytes_of(name);
    let start: u64 = seed.wrapping_mul(GAMMA);
    let mut h: u64 = start;
    let mut i: usize = 0;
    while i < bytes.len()
        invariant
            i <= bytes@.len(),
            h == folded(start, bytes@.take(i as int)),
        decreases bytes@.len() - i,
    {
        assert(bytes@.take(i + 1).drop_last() =~= bytes@.take(i as int));
        h = h.wrapping_mul(31).wrapping_add(bytes[i] as u64);
        i = i + 1;
    }
    assert(bytes@.take(i as int) =~= bytes@);
    match track {
        Track::A => h.wrapping_add(0xA),
        Track::B => h.wrapping_add(0xB),
    }
}

/// What the instances of a pool say.
pub open spec fn instance_models(pool: Seq<Instance>) -> Seq<InstanceModel> {
    pool.map_values(|x: Instance| x@)
}

/// The first `n` instances of the cell that starts in state `s`, and the state
/// after them: a fresh rule is sampled for each.
pub open spec fn cell(p: ProtocolModel, t: TaskModel, track: Track, s: u64, n: nat) -> (
    Seq<InstanceModel>,
    u64,
)
    decreases n,
{
    if n == 0 {
        (Seq::empty(), s)
    } else {
        let (before, u) = cell(p, t, track, s, (n - 1) as nat);
        let (m, v) = (t.rule)(u, track);
        let (x, after) = demo::built(p, t.name, t.stage, track, m, v);
        (before.push(x), after)
    }
}

/// The cells of one task and track, one per seed.
pub open spec fn seed_cells(
    p: ProtocolModel,
    t: TaskModel,
    name: Seq<char>,
    track: Track,
    seeds: Seq<u64>,
    n: nat,
) -> Seq<InstanceModel>
    decreases seeds.len(),
{
    if seeds.len() == 0 {
        Seq::empty()
    } else {
        seed_cells(p, t, name, track, seeds.drop_last(), n) + cell(
            p,
            t,
            track,
            mixed(name, track, seeds.last()),
            n,
        ).0
    }
}

/// The cells of one task, track by track.
pub open spec fn track_cells(
    p: ProtocolModel,
    t: TaskModel,
    name: Seq<char>,
    tracks: Seq<Track>,
    seeds: Seq<u64>,
    n: nat,
) -> Seq<InstanceModel>
    decreases tracks.len(),
{
    if tracks.len() == 0 {
        Seq::empty()
    } else {
        track_cells(p, t, name, tracks.drop_last(), seeds, n) + seed_cells(
            p,
            t,
            name,
            tracks.last(),
            seeds,
            n,
        )
    }
}

/// The task called `name`.
pub open spec fn task_named(registry: Seq<TaskModel>, name: Seq<char>) -> TaskModel {
    registry[tasks::position_of(registry, name)]
}

/// The cells of all named tasks.
pub open spec fn task_cells(
    p: ProtocolModel,
    registry: Seq<TaskModel>,
    names: Seq<Seq<char>>,
    tracks: Seq<Track>,
    seeds: Seq<u64>,
    n: nat,
) -> Seq<InstanceModel>
    decreases names.len(),
{
    if names.len() == 0 {
        Seq::empty()
    } else {
        task_cells(p, registry, names.drop_last(), tracks, seeds, n) + track_cells(
            p,
            task_named(registry, names.last()),
            names.last(),
            tracks,
            seeds,
            n,
        )
    }
}

/// The names of all tasks of a registry.
pub open spec fn all_names(registry: Seq<TaskModel>) -> Seq<Seq<char>> {
    registry.map_values(|t: TaskModel| t.name)
}

/// The tasks that an experiment runs over: those it names, or all.
pub open spec fn chosen_names(wanted: Seq<Seq<char>>, registry: Seq<TaskModel>) -> Seq<Seq<char>> {
    if wanted.len() == 0 {
        all_names(registry)
    } else {
        wanted
    }
}

/// Whether a registry knows every one of `names`.
pub open spec fn knows(registry: Seq<TaskModel>, names: Seq<Seq<char>>) -> bool {
    forall|i: int|
        0 <= i < names.len() ==> tasks::position_of(registry, #[trigger] names[i]) < registry.len()
}

/// Whether an experiment can be generated: the registry knows its tasks, and
/// there are separators to draw from, unless there is nothing to build.
pub open spec fn can_generate(cfg: Experiment, registry: Seq<TaskModel>) -> bool {
    let wanted = tasks::texts(cfg.tasks@);
    &&& knows(registry, wanted)
    &&& cfg.protocol.seps@.len() > 0 || cfg.per_cell == 0 || cfg.tracks@.len() == 0
        || cfg.seeds@.len() == 0 || chosen_names(wanted, registry).len() == 0
}

/// Every instance of an experiment.
pub open spec fn generated(cfg: Experiment, registry: Seq<TaskModel>) -> Seq<InstanceModel> {
    task_cells(
        cfg.protocol@,
        registry,
        chosen_names(tasks::texts(cfg.tasks@), registry),
        cfg.tracks@,
        cfg.seeds@,
        cfg.per_cell as nat,
    )
}

/// A registry finds its own tasks by their names.
proof fn lemma_own_names_known(registry: Seq<TaskModel>)
    ensures
        knows(registry, all_names(registry)),
{
    assert forall|i: int| 0 <= i < all_names(registry).len() implies tasks::position_of(
        registry,
        #[trigger] all_names(registry)[i],
    ) < registry.len() by {
        lemma_position_found(registry, registry[i].name, i);
    }
}

proof fn lemma_position_found(registry: Seq<TaskModel>, name: Seq<char>, i: int)
    requires
        0 <= i < registry.len(),
        registry[i].name == name,
    ensures
        0 <= tasks::position_of(registry, name) <= i,
    decreases registry.len(),
{
    if registry[0].name != name {
        assert(registry.drop_first()[i - 1] == registry[i]);
        lemma_position_found(registry.drop_first(), name, i - 1);
    }
}

/// The instances of one cell. Appends them to `out`.
fn fill_cell<T: Task + ?Sized>(
    protocol: &DemoProtocol,
    task: &T,
    track: Track,
    start: u64,
    n: usize,
    out: &mut Vec<Instance>,
)
    requires
        protocol.seps@.len() > 0 || n == 0,
    ensures
        instance_models(final(out)@) == instance_models(old(out)@) + cell(
            protocol@,
            task.model(),
            track,
            start,
            n as nat,
        ).0,
{
    let mut rng: HarnessRng = HarnessRng::new(start);
    let ghost before = instance_models(out@);
    let ghost t = task.model();
    let mut i: usize = 0;
    assert(instance_models(out@) =~= before + cell(protocol@, t, track, start, 0).0);
    while i < n
        invariant
            i <= n,
            t == task.model(),
            protocol.seps@.len() > 0 || n == 0,
            rng@ == cell(protocol@, t, track, start, i as nat).1,
            instance_models(out@) =~= before + cell(protocol@, t, track, start, i as nat).0,
        decreases n - i,
    {
        let ghost had = out@;
        let rule: BoxedRule = task.sample_rule(&mut rng, track);
        let name: &'static str = task.name();
        let stage: u8 = task.stage();
        let x: Instance = protocol.build(name, stage, track, &rule, &mut rng);
        out.push(x);
        assert(instance_models(out@) =~= instance_models(had).push(x@));
        i = i + 1;
    }
}

/// Generates every instance for the experiment. Deterministic in
/// (task, track, seed, index): reseeding per cell keeps cells reproducible
/// regardless of execution order.
pub fn generate(cfg: &Experiment, registry: &TaskRegistry) -> (r: Vec<Instance>)
    requires
        can_generate(*cfg, registry@),
    ensures
        instance_models(r@) == generated(*cfg, registry@),
{
    let names: Vec<String> = names_for(cfg, registry);
    let ghost all = tasks::texts(names@);
    let ghost p = cfg.protocol@;
    let ghost n = cfg.per_cell as nat;
    let ghost reg = registry@;
    proof {
        lemma_own_names_known(reg);
    }
    let mut out: Vec<Instance> = Vec::new();
    let mut i: usize = 0;
    assert(all.take(0) =~= Seq::<Seq<char>>::empty());
    assert(instance_models(out@) =~= Seq::<InstanceModel>::empty());
    while i < names.len()
        invariant
            i <= names@.len(),
            all == tasks::texts(names@),
            knows(reg, all),
            reg == registry@,
            p == cfg.protocol@,
            n == cfg.per_cell,
            cfg.protocol.seps@.len() > 0 || cfg.per_cell == 0 || cfg.tracks@.len() == 0
                || cfg.seeds@.len() == 0 || all.len() == 0,
            instance_models(out@) == task_cells(
                p,
                reg,
                all.take(i as int),
                cfg.tracks@,
                cfg.seeds@,
                n,
            ),
        decreases names@.len() - i,
    {
        let name: &str = names[i].as_str();
        assert(all[i as int] == name@);
        assert(all.take(i + 1).drop_last() =~= all.take(i as int));
        let found: Option<&dyn Task> = registry.get(name);
        if let Some(task) = found {
            fill_tracks(cfg, task, name, &mut out);
        }
        i = i + 1;
    }
    assert(all.take(i as int) =~= all);
    out
}

/// The tasks that an experiment runs over.
fn names_for(cfg: &Experiment, registry: &TaskRegistry) -> (r: Vec<String>)
    ensures
        tasks::texts(r@) == chosen_names(tasks::texts(cfg.tasks@), registry@),
{
    let mut out: Vec<String> = Vec::new();
    if cfg.tasks.len() == 0 {
        let all: Vec<&'static str> = registry.names();
        let mut i: usize = 0;
        while i < all.len()
            invariant
                i <= all@.len(),
                all@.map_values(|n: &'static str| n@) == all_names(registry@),
                out@.len() == i,
                forall|j: int| 0 <= j < i ==> (#[trigger] out@[j])@ == all@[j]@,
            decreases all@.len() - i,
        {
            out.push(all[i].to_string());
            i = i + 1;
        }
        assert(tasks::texts(out@) =~= all@.map_values(|n: &'static str| n@));
    } else {
        let mut i: usize = 0;
        while i < cfg.tasks.len()
            invariant
                i <= cfg.tasks@.len(),
                out@.len() == i,
                forall|j: int| 0 <= j < i ==> (#[trigger] out@[j])@ == cfg.tasks@[j]@,
            decreases cfg.tasks@.len() - i,
        {
            out.push(cfg.tasks[i].clone());
            i = i + 1;
        }
        assert(tasks::texts(out@) =~= tasks::texts(cfg.tasks@));
    }
    out
}

/// The cells of one task and track. Appends them to `out`.
fn fill_seeds<T: Task + ?Sized>(
    cfg: &Experiment,
    task: &T,
    name: &str,
    track: Track,
    out: &mut Vec<Instance>,
)
    requires
        cfg.protocol.seps@.len() > 0 || cfg.per_cell == 0 || cfg.seeds@.len() == 0,
    ensures
        instance_models(final(out)@) == instance_models(old(out)@) + seed_cells(
            cfg.protocol@,
            task.model(),
            name@,
            track,
            cfg.seeds@,
            cfg.per_cell as nat,
        ),
{
    let ghost p = cfg.protocol@;
    let ghost n = cfg.per_cell as nat;
    let ghost t = task.model();
    let ghost had = instance_models(out@);
    let ghost seeds = cfg.seeds@;
    let mut k: usize = 0;
    assert(seeds.take(0) =~= Seq::<u64>::empty());
    assert(had + seed_cells(p, t, name@, track, seeds.take(0), n) =~= had);
    while k < cfg.seeds.len()
        invariant
            k <= seeds.len(),
            seeds == cfg.seeds@,
            p == cfg.protocol@,
            n == cfg.per_cell,
            t == task.model(),
            cfg.protocol.seps@.len() > 0 || cfg.per_cell == 0 || cfg.seeds@.len() == 0,
            instance_models(out@) == had + seed_cells(p, t, name@, track, seeds.take(k as int), n),
        decreases seeds.len() - k,
    {
        let seed: u64 = cfg.seeds[k];
        let start: u64 = mix(name, track, seed);
        let ghost a = seed_cells(p, t, name@, track, seeds.take(k as int), n);
        let ghost b = cell(p, t, track, start, n).0;
        fill_cell(&cfg.protocol, task, track, start, cfg.per_cell, out);
        proof {
            assert(seeds.take(k + 1).drop_last() =~= seeds.take(k as int));
            assert(seeds.take(k + 1).last() == seed);
            assert(seed_cells(p, t, name@, track, seeds.take(k + 1), n) == a + b);
            assert((had + a) + b =~= had + (a + b));
        }
        k = k + 1;
    }
    assert(seeds.take(k as int) =~= seeds);
}

/// The cells of one task. Appends them to `out`.
fn fill_tracks<T: Task + ?Sized>(cfg: &Experiment, task: &T, name: &str, out: &mut Vec<Instance>)
    requires
        cfg.protocol.seps@.len() > 0 || cfg.per_cell == 0 || cfg.tracks@.len() == 0
            || cfg.seeds@.len() == 0,
    ensures
        instance_models(final(out)@) == instance_models(old(out)@) + track_cells(
            cfg.protocol@,
            task.model(),
            name@,
            cfg.tracks@,
            cfg.seeds@,
            cfg.per_cell as nat,
        ),
{
    let ghost p = cfg.protocol@;
    let ghost n = cfg.per_cell as nat;
    let ghost t = task.model();
    let ghost before = instance_models(out@);
    let mut j: usize = 0;
    assert(cfg.tracks@.take(0) =~= Seq::<Track>::empty());
    assert(before + track_cells(p, t, name@, cfg.tracks@.take(0), cfg.seeds@, n) =~= before);
    while j < cfg.tracks.len()
        invariant
            j <= cfg.tracks@.len(),
            p == cfg.protocol@,
            n == cfg.per_cell,
            t == task.model(),
            cfg.protocol.seps@.len() > 0 || cfg.per_cell == 0 || cfg.tracks@.len() == 0
                || cfg.seeds@.len() == 0,
            instance_models(out@) == before + track_cells(
                p,
                t,
                name@,
                cfg.tracks@.take(j as int),
                cfg.seeds@,
                n,
            ),
        decreases cfg.tracks@.len() - j,
    {
        let track: Track = cfg.tracks[j];
        fill_seeds(cfg, task, name, track, out);
        assert(cfg.tracks@.take(j + 1).drop_last() =~= cfg.tracks@.take(j as int));
        proof {
            let a = track_cells(p, t, name@, cfg.tracks@.take(j as int), cfg.seeds@, n);
            let b = seed_cells(p, t, name@, track, cfg.seeds@, n);
            assert((before + a) + b =~= before + (a + b));
        }
        j = j + 1;
    }
    assert(cfg.tracks@.take(j as int) =~= cfg.tracks@);
}

/// A cell has as many instances as were asked for, and asking for more keeps
/// those that are there.
pub proof fn lemma_cell_prefix(p: ProtocolModel, t: TaskModel, track: Track, s: u64, n: nat, m: nat)
    requires
        n <= m,
    ensures
        cell(p, t, track, s, m).0.len() == m,
        cell(p, t, track, s, n).0 == cell(p, t, track, s, m).0.take(n as int),
    decreases m,
{
    let all = cell(p, t, track, s, m).0;
    if m > 0 {
        let less = (m - 1) as nat;
        lemma_cell_prefix(p, t, track, s, less, less);
        if n < m {
            lemma_cell_prefix(p, t, track, s, n, less);
            assert(all.take(n as int) =~= cell(p, t, track, s, less).0.take(n as int));
        } else {
            assert(all.take(n as int) =~= all);
        }
    } else {
        assert(all.take(0) =~= all);
    }
}

proof fn lemma_one_more(len: nat, n: nat)
    requires
        len > 0,
    ensures
        (len - 1) * n + n == len * n,
{
    assert((len - 1) * n + n == len * n) by (nonlinear_arith);
}

proof fn lemma_room(i: int, len: int, n: int)
    requires
        0 <= i < len,
        n >= 0,
    ensures
        0 <= i * n <= i * n + n <= len * n,
{
    assert(0 <= i * n <= i * n + n <= len * n) by (nonlinear_arith)
        requires
            0 <= i < len,
            n >= 0,
    ;
}

/// The cell of seed `k` stands at its own place among the cells of its task
/// and track, and depends on nothing but its task, its track and its seed.
pub proof fn lemma_seed_cells(
    p: ProtocolModel,
    t: TaskModel,
    name: Seq<char>,
    track: Track,
    seeds: Seq<u64>,
    n: nat,
)
    ensures
        seed_cells(p, t, name, track, seeds, n).len() == seeds.len() * n,
        forall|k: int| #![trigger seeds[k]]
            0 <= k < seeds.len() ==> seed_cells(p, t, name, track, seeds, n).subrange(
                k * n,
                k * n + n,
            ) == cell(p, t, track, mixed(name, track, seeds[k]), n).0,
    decreases seeds.len(),
{
    if seeds.len() > 0 {
        let front = seeds.drop_last();
        let before = seed_cells(p, t, name, track, front, n);
        let all = seed_cells(p, t, name, track, seeds, n);
        let last = cell(p, t, track, mixed(name, track, seeds.last()), n).0;
        lemma_seed_cells(p, t, name, track, front, n);
        lemma_cell_prefix(p, t, track, mixed(name, track, seeds.last()), n, n);
        lemma_one_more(seeds.len(), n);
        assert forall|k: int| #![trigger seeds[k]] 0 <= k < seeds.len() implies all.subrange(
            k * n,
            k * n + n,
        ) == cell(p, t, track, mixed(name, track, seeds[k]), n).0 by {
            if k < front.len() {
                lemma_room(k, front.len() as int, n as int);
                assert(front[k] == seeds[k]);
                assert(all.subrange(k * n, k * n + n) =~= before.subrange(k * n, k * n + n));
            } else {
                assert(all.subrange(k * n, k * n + n) =~= last);
            }
        }
    }
}

/// The cells of track `j` stand at their own place among the cells of their
/// task.
pub proof fn lemma_track_cells(
    p: ProtocolModel,
    t: TaskModel,
    name: Seq<char>,
    tracks: Seq<Track>,
    seeds: Seq<u64>,
    n: nat,
)
    ensures
        track_cells(p, t, name, tracks, seeds, n).len() == tracks.len() * (seeds.len() * n),
        forall|j: int| #![trigger tracks[j]]
            0 <= j < tracks.len() ==> track_cells(p, t, name, tracks, seeds, n).subrange(
                j * (seeds.len() * n),
                j * (seeds.len() * n) + seeds.len() * n,
            ) == seed_cells(p, t, name, tracks[j], seeds, n),
    decreases tracks.len(),
{
    if tracks.len() > 0 {
        let front = tracks.drop_last();
        let size = seeds.len() * n;
        let before = track_cells(p, t, name, front, seeds, n);
        let all = track_cells(p, t, name, tracks, seeds, n);
        let last = seed_cells(p, t, name, tracks.last(), seeds, n);
        lemma_track_cells(p, t, name, front, seeds, n);
        lemma_seed_cells(p, t, name, tracks.last(), seeds, n);
        lemma_one_more(tracks.len(), size);
        assert forall|j: int| #![trigger tracks[j]] 0 <= j < tracks.len() implies all.subrange(
            j * size,
            j * size + size,
        ) == seed_cells(p, t, name, tracks[j], seeds, n) by {
            if j < front.len() {
                lemma_room(j, front.len() as int, size as int);
                assert(front[j] == tracks[j]);
                assert(all.subrange(j * size, j * size + size) =~= before.subrange(
                    j * size,
                    j * size + size,
                ));
            } else {
                assert(all.subrange(j * size, j * size + size) =~= last);
            }
        }
    }
}

/// The cells of task `i` stand at their own place in the whole pool, and every
/// cell is filled to the same count: the pool has one instance per task,
/// track, seed and index.
pub proof fn lemma_task_cells(
    p: ProtocolModel,
    registry: Seq<TaskModel>,
    names: Seq<Seq<char>>,
    tracks: Seq<Track>,
    seeds: Seq<u64>,
    n: nat,
)
    ensures
        task_cells(p, registry, names, tracks, seeds, n).len() == names.len() * (tracks.len() * (
        seeds.len() * n)),
        forall|i: int| #![trigger names[i]]
            0 <= i < names.len() ==> task_cells(p, registry, names, tracks, seeds, n).subrange(
                i * (tracks.len() * (seeds.len() * n)),
                i * (tracks.len() * (seeds.len() * n)) + tracks.len() * (seeds.len() * n),
            ) == track_cells(p, task_named(registry, names[i]), names[i], tracks, seeds, n),
    decreases names.len(),
{
    if names.len() > 0 {
        let front = names.drop_last();
        let size = tracks.len() * (seeds.len() * n);
        let before = task_cells(p, registry, front, tracks, seeds, n);
        let all = task_cells(p, registry, names, tracks, seeds, n);
        let last = track_cells(
            p,
            task_named(registry, names.last()),
            names.last(),
            tracks,
            seeds,
            n,
        );
        lemma_task_cells(p, registry, front, tracks, seeds, n);
        lemma_track_cells(
            p,
            task_named(registry, names.last()),
            names.last(),
            tracks,
            seeds,
            n,
        );
        lemma_one_more(names.len(), size);
        assert forall|i: int| #![trigger names[i]] 0 <= i < names.len() implies all.subrange(
            i * size,
            i * size + size,
        ) == track_cells(p, task_named(registry, names[i]), names[i], tracks, seeds, n) by {
            if i < front.len() {
                lemma_room(i, front.len() as int, size as int);
                assert(front[i] == names[i]);
                assert(all.subrange(i * size, i * size + size) =~= before.subrange(
                    i * size,
                    i * size + size,
                ));
            } else {
                assert(all.subrange(i * size, i * size + size) =~= last);
            }
        }
    }
}

/// Multiplying by 31 and adding a byte tells words apart.
proof fn lemma_fold_step(a: u64, b: u64, x: u64)
    requires
        a.wrapping_mul(31).wrapping_add(x) == b.wrapping_mul(31).wrapping_add(x),
    ensures
        a == b,
{
    let p: int = 0x1_0000_0000_0000_0000;
    let u: int = 0xEF7B_DEF7_BDEF_7BDF;
    assert(u * 31 == 1 + 29 * p);
    let (c, d) = (a.wrapping_mul(31), b.wrapping_mul(31));
    assert(c == d);
    assert((a * 31) % p == (b * 31) % p);
    vstd::arithmetic::div_mod::lemma_mul_mod_noop_left(a * 31, u, p);
    vstd::arithmetic::div_mod::lemma_mul_mod_noop_left(b * 31, u, p);
    assert((a * 31) * u == p * (29 * a) + a) by (nonlinear_arith)
        requires
            u * 31 == 1 + 29 * p,
    ;
    assert((b * 31) * u == p * (29 * b) + b) by (nonlinear_arith)
        requires
            u * 31 == 1 + 29 * p,
    ;
    vstd::arithmetic::div_mod::lemma_mod_multiples_vanish(29 * a, a as int, p);
    vstd::arithmetic::div_mod::lemma_mod_multiples_vanish(29 * b, b as int, p);
    vstd::arithmetic::div_mod::lemma_small_mod(a as nat, p as nat);
    vstd::arithmetic::div_mod::lemma_small_mod(b as nat, p as nat);
}

/// Folding a name in tells start words apart.
proof fn lemma_folded_apart(a: u64, b: u64, name: Seq<u8>)
    requires
        folded(a, name) == folded(b, name),
    ensures
        a == b,
    decreases name.len(),
{
    if name.len() > 0 {
        let front = name.drop_last();
        lemma_fold_step(folded(a, front), folded(b, front), name.last() as u64);
        lemma_folded_apart(a, b, front);
    }
}

/// Multiplying by the generator's step tells seeds apart.
proof fn lemma_seed_step(a: u64, b: u64)
    requires
        a.wrapping_mul(GAMMA) == b.wrapping_mul(GAMMA),
    ensures
        a == b,
{
    let p: int = 0x1_0000_0000_0000_0000;
    let u: int = 0xF1DE_83E1_9937_733D;
    let c: int = 10771413168148108919;
    assert(u * GAMMA == 1 + c * p);
    assert((a * GAMMA) % p == (b * GAMMA) % p);
    vstd::arithmetic::div_mod::lemma_mul_mod_noop_left(a * GAMMA, u, p);
    vstd::arithmetic::div_mod::lemma_mul_mod_noop_left(b * GAMMA, u, p);
    assert((a * GAMMA) * u == p * (c * a) + a) by (nonlinear_arith)
        requires
            u * GAMMA == 1 + c * p,
    ;
    assert((b * GAMMA) * u == p * (c * b) + b) by (nonlinear_arith)
        requires
            u * GAMMA == 1 + c * p,
    ;
    vstd::arithmetic::div_mod::lemma_mod_multiples_vanish(c * a, a as int, p);
    vstd::arithmetic::div_mod::lemma_mod_multiples_vanish(c * b, b as int, p);
    vstd::arithmetic::div_mod::lemma_small_mod(a as nat, p as nat);
    vstd::arithmetic::div_mod::lemma_small_mod(b as nat, p as nat);
}

/// Every seed starts its cell in a state of its own: for a task and a track,
/// different seeds start in different states.
pub proof fn lemma_seeds_start_apart(name: Seq<char>, track: Track, a: u64, b: u64)
    requires
        a != b,
    ensures
        mixed(name, track, a) != mixed(name, track, b),
{
    if mixed(name, track, a) == mixed(name, track, b) {
        let bytes = encode_utf8(name);
        assert(folded(a.wrapping_mul(GAMMA), bytes) == folded(b.wrapping_mul(GAMMA), bytes));
        lemma_folded_apart(a.wrapping_mul(GAMMA), b.wrapping_mul(GAMMA), bytes);
        lemma_seed_step(a, b);
    }
}

/// The two tracks of a task start one state apart, so never in the same one.
pub proof fn lemma_tracks_start_apart(name: Seq<char>, seed: u64)
    ensures
        mixed(name, Track::A, seed) != mixed(name, Track::B, seed),
        mixed(name, Track::B, seed) == mixed(name, Track::A, seed).wrapping_add(1),
{
}

/// The words of a name: without any character there is the seed alone, and a
/// character more makes 31 of what the name without it makes, and its code.
pub proof fn lemma_names_count(name: Seq<char>, c: char, track: Track, seed: u64)
    requires
        c < '\u{80}',
    ensures
        ({
            let letter: u64 = match track {
                Track::A => 10,
                Track::B => 11,
            };
            let word = mixed(name, track, seed).wrapping_sub(letter);
            &&& mixed(Seq::empty(), track, seed) == seed.wrapping_mul(
                0x9E37_79B9_7F4A_7C15,
            ).wrapping_add(letter)
            &&& mixed(name.push(c), track, seed) == word.wrapping_mul(31).wrapping_add(
                c as u64,
            ).wrapping_add(letter)
        }),
{
    let start = seed.wrapping_mul(GAMMA);
    let h = folded(start, encode_utf8(name));
    let letter: u64 = match track {
        Track::A => 10,
        Track::B => 11,
    };
    crate::text::lemma_encode_add(name, seq![c]);
    assert(name.push(c) =~= name + seq![c]);
    is_ascii_chars_encode_utf8(seq![c]);
    let more = encode_utf8(name.push(c));
    assert(more =~= encode_utf8(name).push(c as u8));
    assert(more.drop_last() =~= encode_utf8(name));
    assert(h.wrapping_add(letter).wrapping_sub(letter) == h);
    assert(encode_utf8(Seq::<char>::empty()).len() == 0);
}

/// The instances of a cell are built one after the other, each of a rule sampled
/// for it, from the state that the one before left behind; the first one from
/// the state that the cell starts in.
pub proof fn lemma_cell_chains(p: ProtocolModel, t: TaskModel, track: Track, s: u64, n: nat, x: int)
    requires
        0 <= x < n,
    ensures
        ({
            let at = cell(p, t, track, s, x as nat).1;
            let (m, v) = (t.rule)(at, track);
            let (made, after) = demo::built(p, t.name, t.stage, track, m, v);
            &&& cell(p, t, track, s, n).0.len() == n
            &&& cell(p, t, track, s, n).0[x] == made
            &&& cell(p, t, track, s, (x + 1) as nat).1 == after
            &&& cell(p, t, track, s, 0).1 == s
            &&& made.task == t.name
            &&& made.stage == t.stage
            &&& made.track == track
        }),
{
    let at = cell(p, t, track, s, x as nat).1;
    let (m, v) = (t.rule)(at, track);
    demo::lemma_built_says_what_for(p, t.name, t.stage, track, m, v);
    lemma_cell_prefix(p, t, track, s, (x + 1) as nat, n);
    lemma_cell_prefix(p, t, track, s, x as nat, x as nat);
    assert(cell(p, t, track, s, (x + 1) as nat).0[x] == cell(p, t, track, s, n).0[x]);
}

/// A part of a part of a list is a part of the list.
proof fn lemma_part<T>(xs: Seq<T>, a: int, n: int, b: int, m: int)
    requires
        0 <= a,
        0 <= b,
        0 <= m,
        b + m <= n,
        a + n <= xs.len(),
    ensures
        xs.subrange(a, a + n).subrange(b, b + m) == xs.subrange(a + b, a + b + m),
{
    assert(xs.subrange(a, a + n).subrange(b, b + m) =~= xs.subrange(a + b, a + b + m));
}

/// The whole pool: one cell for every task that is named (or every task there
/// is, if none is), every track and every seed, in this order, each of the same
/// size and at its own place; each the cell of its own task and track, started
/// by its own seed.
pub proof fn lemma_pool_order(
    cfg: Experiment,
    registry: Seq<TaskModel>,
    i: int,
    j: int,
    k: int,
)
    requires
        knows(registry, tasks::texts(cfg.tasks@)),
        0 <= i < (if cfg.tasks@.len() == 0 {
            registry.len()
        } else {
            cfg.tasks@.len()
        }),
        0 <= j < cfg.tracks@.len(),
        0 <= k < cfg.seeds@.len(),
    ensures
        ({
            let n = cfg.per_cell as int;
            let seeds = cfg.seeds@.len() as int;
            let tracks = cfg.tracks@.len() as int;
            let count: int = if cfg.tasks@.len() == 0 {
                registry.len() as int
            } else {
                cfg.tasks@.len() as int
            };
            let name = if cfg.tasks@.len() == 0 {
                registry[i].name
            } else {
                cfg.tasks@[i]@
            };
            let t = registry[tasks::position_of(registry, name)];
            let pool = generated(cfg, registry);
            let at = i * (tracks * (seeds * n)) + j * (seeds * n) + k * n;
            &&& pool.len() == count * (tracks * (seeds * n))
            &&& 0 <= at <= at + n <= pool.len()
            &&& pool.subrange(at, at + n) == cell(
                cfg.protocol@,
                t,
                cfg.tracks@[j],
                mixed(name, cfg.tracks@[j], cfg.seeds@[k]),
                n as nat,
            ).0
            &&& t.name == name
        }),
{
    let p = cfg.protocol@;
    let n = cfg.per_cell as nat;
    let names = chosen_names(tasks::texts(cfg.tasks@), registry);
    let name = names[i];
    let t = task_named(registry, name);
    let (s, r) = (cfg.seeds@, cfg.tracks@);
    let all = generated(cfg, registry);
    let row = (s.len() * n) as int;
    let block = (r.len() * (s.len() * n)) as int;
    lemma_own_names_known(registry);
    tasks::lemma_position_of(registry, name);
    lemma_task_cells(p, registry, names, r, s, n);
    lemma_track_cells(p, t, name, r, s, n);
    lemma_seed_cells(p, t, name, r[j], s, n);
    assert(s[k] == s[k] && r[j] == r[j] && names[i] == name);
    lemma_room(i, names.len() as int, block);
    lemma_room(j, r.len() as int, row);
    lemma_room(k, s.len() as int, n as int);
    let of_task = all.subrange(i * block, i * block + block);
    let of_track = of_task.subrange(j * row, j * row + row);
    assert(of_task == track_cells(p, t, name, r, s, n));
    assert(of_track == seed_cells(p, t, name, r[j], s, n));
    lemma_part(all, i * block, block, j * row, row);
    lemma_part(all, i * block + j * row, row, k * n, n as int);
}

/// The standing choices: both tracks, A first, and the tasks that are built in,
/// in the order in which they are.
pub proof fn lemma_standing_choices()
    ensures
        both_tracks() == seq![Track::A, Track::B],
        stage0_names() == tasks::builtin_tasks().map_values(|t: TaskModel| t.name),
        chosen_names(stage0_names(), tasks::builtin_tasks()) == chosen_names(
            Seq::empty(),
            tasks::builtin_tasks(),
        ),
{
    tasks::lemma_builtin_listed();
    assert(stage0_names() =~= tasks::builtin_tasks().map_values(|t: TaskModel| t.name));
    assert(all_names(tasks::builtin_tasks()) =~= stage0_names());
}

/// A registry knows names exactly if it has a task for each of them.
pub proof fn lemma_knows(registry: Seq<TaskModel>, names: Seq<Seq<char>>)
    ensures
        knows(registry, names) <==> forall|i: int|
            0 <= i < names.len() ==> exists|j: int|
                0 <= j < registry.len() && (#[trigger] registry[j]).name == #[trigger] names[i],
{
    if knows(registry, names) {
        assert forall|i: int| 0 <= i < names.len() implies exists|j: int|
            0 <= j < registry.len() && (#[trigger] registry[j]).name == #[trigger] names[i] by {
            tasks::lemma_position_of(registry, names[i]);
            let j = tasks::position_of(registry, names[i]);
            assert(registry[j].name == names[i]);
        }
    }
    if forall|i: int|
        0 <= i < names.len() ==> exists|j: int|
            0 <= j < registry.len() && (#[trigger] registry[j]).name == #[trigger] names[i] {
        assert forall|i: int| 0 <= i < names.len() implies tasks::position_of(
            registry,
            #[trigger] names[i],
        ) < registry.len() by {
            let j = choose|j: int|
                0 <= j < registry.len() && (#[trigger] registry[j]).name == names[i];
            lemma_position_found(registry, names[i], j);
        }
    }
}

/// An experiment can be generated exactly if the registry has all its tasks, and
/// there are separators unless no instance is to be built.
pub proof fn lemma_can_generate(cfg: Experiment, registry: Seq<TaskModel>)
    ensures
        !knows(registry, tasks::texts(cfg.tasks@)) ==> !can_generate(cfg, registry),
        knows(registry, tasks::texts(cfg.tasks@)) ==> (can_generate(cfg, registry) <==> cfg.protocol@.seps.len()
            > 0 || generated(cfg, registry).len() == 0),
{
    let wanted = tasks::texts(cfg.tasks@);
    let names = chosen_names(wanted, registry);
    let n = cfg.per_cell as nat;
    let (s, r) = (cfg.seeds@, cfg.tracks@);
    lemma_task_cells(cfg.protocol@, registry, names, r, s, n);
    let (a, b, c) = (names.len() as int, r.len() as int, s.len() as int);
    assert(a * (b * (c * n)) == 0 <==> a == 0 || b == 0 || c == 0 || n == 0) by (nonlinear_arith)
        requires
            a >= 0,
            b >= 0,
            c >= 0,
            n >= 0,
    ;
}

} // verus!
