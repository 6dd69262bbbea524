//! Hybrid optimization: Muon/Newton-Muon for 2D hidden matrices, AdamW for
//! everything else (embedding, norms, halt head, LM head). The gradients live
//! with the backend; which gradient goes where, and in which order, is decided
//! here by parameter id.

pub mod hybrid;
pub mod newton_muon;

pub use hybrid::{merge_grads, precondition_grads, split_grads};
pub use newton_muon::{NewtonMuon, NewtonMuonConfig, PrecondInput};
