//! Run manifests and experiment plans.
//!
//! A run is a model, an optimizer, a schedule and an experiment. A plan is a
//! list of runs whose checkpoints feed later ones: after each experiment its
//! split is kept, so later experiments can be checked for forgetting.

use vstd::prelude::*;

use crate::model::LoopedConfig;
use crate::optim::NewtonMuonConfig;
use crate::tasks::Instance;
use crate::text;
use crate::train::stage::StageOutcome;
use crate::train::TrainConfig;

use super::experiment;
use super::experiment::Experiment;

verus! {

/// Everything needed to launch a run.
#[derive(Debug, Clone)]
pub struct RunConfig {
    pub model: LoopedConfig,
    pub optim: NewtonMuonConfig,
    pub train: TrainConfig,
    pub experiment: Experiment,
}

impl RunConfig {
    /// Minimal smoke defaults: tiny pools, one seed.
    pub fn smoke() -> (r: Self)
        ensures
            r.model == crate::model::config::standing(),
            r.optim == (NewtonMuonConfig { refresh_every: 32, ns_steps: 5 }),
            crate::train::is_standing(r.train),
            crate::tasks::texts(r.experiment.tasks@) == experiment::stage0_names(),
            r.experiment.tracks@ == experiment::both_tracks(),
            r.experiment.per_cell == 8,
            r.experiment.seeds@ == seq![0u64],
            r.experiment.protocol@ == crate::tasks::demo::default_protocol(),
    {
        let base: Experiment = Experiment::stage0_trio();
        let mut seeds: Vec<u64> = Vec::new();
        seeds.push(0);
        RunConfig {
            model: LoopedConfig::base_1m(),
            optim: NewtonMuonConfig::new(),
            train: TrainConfig::new(),
            experiment: Experiment {
                tasks: base.tasks,
                tracks: base.tracks,
                per_cell: 8,
                seeds,
                protocol: base.protocol,
            },
        }
    }
}

/// One experiment in a chain: a manifest plus where its weights come from.
/// `init_from` is an explicit checkpoint path, or `"$prev"` for the previous
/// experiment's last checkpoint. The first experiment has none.
#[derive(Debug, Clone)]
pub struct PlannedExperiment {
    pub name: String,
    pub manifest: String,
    pub init_from: Option<String>,
}

/// Ordered experiments with checkpoint dependencies. Explicit paths allow
/// any acyclic order of weights, not just chains.
#[derive(Debug, Clone)]
pub struct ExperimentPlan {
    pub experiments: Vec<PlannedExperiment>,
}

/// The checkpoint that an experiment starts from, if it starts from one.
pub open spec fn resolved(
    init_from: Option<Seq<char>>,
    prev: Option<Seq<char>>,
) -> Option<Seq<char>> {
    match init_from {
        None => None,
        Some(path) => if path == "$prev"@ {
            prev
        } else {
            Some(path)
        },
    }
}

/// What a plan carries from one experiment to the next.
#[derive(Debug)]
pub struct Chain {
    /// The splits of the finished experiments, by name, in plan order.
    pub retained: Vec<(String, Vec<Instance>)>,
    /// The last checkpoint of the latest one.
    pub prev_ckpt: Option<String>,
}

impl Chain {
    /// Nothing has run.
    pub fn new() -> (r: Self)
        ensures
            r.retained@.len() == 0,
            r.prev_ckpt is None,
    {
        Chain { retained: Vec::new(), prev_ckpt: None }
    }

    /// The checkpoint that `exp` starts from.
    pub fn init_of(&self, exp: &PlannedExperiment) -> (r: Option<String>)
        ensures
            text::text_of(r) == resolved(
                text::text_of(exp.init_from),
                text::text_of(self.prev_ckpt),
            ),
    {
        match &exp.init_from {
            None => None,
            Some(path) => if text::same(path.as_str(), "$prev") {
                match &self.prev_ckpt {
                    None => None,
                    Some(prev) => Some(prev.clone()),
                }
            } else {
                Some(path.clone())
            },
        }
    }

    /// `name` has run to `outcome`; `split` is what it is checked by later.
    pub fn finish(&mut self, name: String, split: Vec<Instance>, outcome: StageOutcome)
        ensures
            final(self).retained@ == old(self).retained@.push((name, split)),
            final(self).prev_ckpt == Some(outcome.last_ckpt),
    {
        self.retained.push((name, split));
        self.prev_ckpt = Some(outcome.last_ckpt);
    }
}

/// Where weights come from: nowhere if nothing is said, the previous experiment
/// if `$prev` is, and any other path from itself, whatever came before.
pub proof fn lemma_resolved(path: Seq<char>, prev: Option<Seq<char>>, other: Option<Seq<char>>)
    ensures
        resolved(None, prev) is None,
        resolved(Some(seq!['$', 'p', 'r', 'e', 'v']), prev) == prev,
        path != seq!['$', 'p', 'r', 'e', 'v'] ==> resolved(Some(path), prev) == Some(path)
            && resolved(Some(path), other) == resolved(Some(path), prev),
{
    reveal_strlit("$prev");
    assert("$prev"@ =~= seq!['$', 'p', 'r', 'e', 'v']);
}

} // verus!
