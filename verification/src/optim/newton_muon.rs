//! Newton-Muon bookkeeping: covariance groups and the refresh clock.
//!
//! Newton-Muon = standard Muon applied **after** right-preconditioning each
//! layer gradient with an inverse activation second moment. Unfused Q/K/V/O +
//! gate/up/down linears mean one `d_model x d_model` covariance covers
//! attention inputs, one MLP inputs, plus one `ffn_hidden x ffn_hidden`
//! covariance for the down-projection input.

use vstd::prelude::*;

verus! {

/// Which input covariance a hidden matrix is preconditioned with.
#[derive(Debug, Clone, Copy, PartialEq, Eq, Hash, Structural)]
pub enum PrecondInput {
    AttnIn,
    MlpIn,
    MlpHidden,
}

/// The counts of the preconditioner. Its decay, ridge and damping stay with
/// the tensors.
#[derive(Debug, Clone, Copy, PartialEq, Eq, Structural)]
pub struct NewtonMuonConfig {
    pub refresh_every: usize,
    pub ns_steps: usize,
}

impl NewtonMuonConfig {
    /// Refresh every 32 steps, five Newton-Schulz iterations.
    pub fn new() -> (r: Self)
        ensures
            r.refresh_every == 32,
            r.ns_steps == 5,
    {
        NewtonMuonConfig { refresh_every: 32, ns_steps: 5 }
    }
}

/// The clock of the preconditioner: when its inverses are refreshed.
#[derive(Debug)]
pub struct NewtonMuon {
    pub step: usize,
    pub refresh_every: usize,
    pub d_model: usize,
    pub ffn_hidden: usize,
}

impl NewtonMuon {
    pub fn new(d_model: usize, ffn_hidden: usize, config: &NewtonMuonConfig) -> (r: Self)
        ensures
            r.step == 0,
            r.refresh_every == config.refresh_every,
            r.d_model == d_model,
            r.ffn_hidden == ffn_hidden,
    {
        NewtonMuon { step: 0, refresh_every: config.refresh_every, d_model, ffn_hidden }
    }

    /// The dimension of a group's covariance.
    pub fn group(&self, role: PrecondInput) -> (r: usize)
        ensures
            r == match role {
                PrecondInput::AttnIn => self.d_model,
                PrecondInput::MlpIn => self.d_model,
                PrecondInput::MlpHidden => self.ffn_hidden,
            },
    {
        match role {
            PrecondInput::AttnIn => self.d_model,
            PrecondInput::MlpIn => self.d_model,
            PrecondInput::MlpHidden => self.ffn_hidden,
        }
    }

    /// Advances the step counter; whether the inverses are refreshed, which
    /// they are every `refresh_every` steps.
    pub fn maybe_refresh(&mut self) -> (r: bool)
        requires
            old(self).step < usize::MAX,
        ensures
            final(self).step == old(self).step + 1,
            final(self).refresh_every == old(self).refresh_every,
            final(self).d_model == old(self).d_model,
            final(self).ffn_hidden == old(self).ffn_hidden,
            r == (old(self).refresh_every > 0 && final(self).step % old(self).refresh_every == 0),
    {
        self.step = self.step + 1;
        if self.refresh_every == 0 {
            false
        } else {
            self.step % self.refresh_every == 0
        }
    }
}

} // verus!
