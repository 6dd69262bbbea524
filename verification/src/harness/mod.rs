//! Experiment harness: dataset dispatch + JSONL metric records.
//!
//! New experiment = build an [`Experiment`] (task set, tracks, seeds,
//! instance counts), call [`generate`], train/eval downstream, then log
//! [`Record`]s via [`Jsonl`]. New metric = one function over `Record`s.

pub mod batch;
pub mod cells;
pub mod experiment;
pub mod metrics;
pub mod run;

pub use batch::{bucket_len, collate, Collated, BUCKET_EDGES, EOS};
pub use experiment::{generate, Experiment};
pub use metrics::{summarize, Jsonl, Record};
pub use run::{ExperimentPlan, PlannedExperiment, RunConfig};
