//! A research harness for in-context generalisation: procedural symbolic
//! tasks, the demonstration protocol that wraps them into byte prompts, batch
//! collation, metrics, and the bookkeeping around a looped byte-level
//! transformer and its training loop.

pub mod data;
pub mod fail_fast;
pub mod harness;
pub mod model;
pub mod optim;
pub mod tasks;
pub mod text;
pub mod train;
