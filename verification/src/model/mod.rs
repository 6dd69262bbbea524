//! The looped transformer's shape and control: configuration and parameter
//! budget, when the loop stops, which keys a query may see, how queries are
//! tiled, and which parameter is whose. The tensor math lives with the backend.

pub mod attention;
pub mod config;
pub mod halting;
pub mod params;

pub use attention::pad_mask;
pub use config::{LoopedConfig, PosScheme, StopMode};
