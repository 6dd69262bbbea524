//! Configuration, masks, loop control, parameter routing.

use generalist::model::attention::{query_chunks, QueryChunk};
use generalist::model::config::ConfigFault;
use generalist::model::halting::{loop_limit, real_count, ActLoop, ConvergeLoop};
use generalist::model::params::ParamIds;
use generalist::model::{pad_mask, LoopedConfig, PosScheme, StopMode};
use generalist::optim::hybrid::{sorted_ids, MergeHow, MergeStep};
use generalist::optim::{
    merge_grads, precondition_grads, split_grads, NewtonMuon, NewtonMuonConfig, PrecondInput,
};

#[test]
fn option_a_is_1m_class() {
    let cfg = LoopedConfig::base_1m();
    assert_eq!(cfg.param_count(), 984_065);
    assert_eq!(cfg.checked_param_count(), Some(984_065));
    let vast = LoopedConfig { d_model: usize::MAX, ..cfg };
    assert_eq!(vast.checked_param_count(), None);
}

#[test]
fn two_blocks_is_18m_class() {
    let cfg = LoopedConfig::base_1m().with_n_blocks(2);
    // Second block (attn+mlp+norms+own halt gate): 852_480 + 257.
    assert_eq!(cfg.param_count(), 984_065 + 852_737);
    assert_eq!(cfg.param_count(), 1_836_802);
}

#[test]
fn four_blocks_param_count() {
    let cfg = LoopedConfig::base_1m().with_n_blocks(4);
    assert_eq!(cfg.param_count(), 3_542_276);
}

#[test]
fn pos_scheme_defaults_to_rope_and_nope_keeps_param_count() {
    let rope = LoopedConfig::base_1m();
    assert_eq!(rope.pos_scheme, PosScheme::Rope);
    let nope = LoopedConfig::base_1m().with_pos_scheme(PosScheme::Nope);
    // Stateless either way: identical params, different forward.
    assert_eq!(nope.param_count(), rope.param_count());
    assert_eq!(PosScheme::default(), PosScheme::Rope);
}

#[test]
fn faulty_configs_are_named() {
    let good = LoopedConfig::new();
    assert_eq!(good.assert_valid(), Ok(()));
    let c = LoopedConfig { n_heads: 3, ..good };
    assert_eq!(c.assert_valid(), Err(ConfigFault::HeadsMismatch));
    let c = LoopedConfig { n_heads: usize::MAX, head_dim: usize::MAX, ..good };
    assert_eq!(c.assert_valid(), Err(ConfigFault::HeadsMismatch));
    let c = LoopedConfig { d_model: 9, n_heads: 3, head_dim: 3, ..good };
    assert_eq!(c.assert_valid(), Err(ConfigFault::OddHeadDim));
    let c = LoopedConfig { max_loops: 0, ..good };
    assert_eq!(c.assert_valid(), Err(ConfigFault::NoLoops));
}

#[test]
fn pad_mask_values_are_correct() {
    // true = pad (blocked). Row len 0 keeps position 0 open (NaN guard).
    let m = pad_mask(&[4, 0, 2], 4);
    let v: Vec<f32> = m.iter().map(|b| if *b { 1.0 } else { 0.0 }).collect();
    assert_eq!(
        v,
        vec![
            0., 0., 0., 0., //
            0., 1., 1., 1., //
            0., 0., 1., 1.,
        ]
    );
}

#[test]
fn queries_tile_evenly_or_with_a_short_tail() {
    assert_eq!(query_chunks(128).len(), 2);
    assert_eq!(
        query_chunks(96),
        vec![QueryChunk { start: 0, len: 64 }, QueryChunk { start: 64, len: 32 }]
    );
    assert!(query_chunks(0).is_empty());
}

#[test]
fn act_loop_breaks_on_even_steps_only() {
    let mut l = ActLoop::new(5);
    let mut seen = vec![];
    while let Some(s) = l.next() {
        seen.push((s.step, s.last, s.checked));
        // Nothing runs from the third iteration on.
        l.report(s.step >= 3);
    }
    assert_eq!(seen, vec![(1, false, false), (2, false, true), (3, false, false), (4, false, true)]);
    assert_eq!(l.steps_used(), 4);
    let mut l = ActLoop::new(3);
    while let Some(s) = l.next() {
        assert_eq!(s.last, s.step == 3);
        l.report(false);
    }
    assert_eq!(l.steps_used(), 3);
}

#[test]
fn converge_loop_needs_patience_in_a_row() {
    let mut l = ConvergeLoop::new(8, 2);
    for below in [true, false, true, true] {
        assert!(l.running());
        l.report(below);
    }
    assert!(!l.running());
    assert_eq!(l.steps_used(), 4);
    let mut l = ConvergeLoop::new(2, 2);
    l.report(false);
    l.report(true);
    assert!(!l.running());
    assert_eq!(l.steps_used(), 2);
    let mut l = ConvergeLoop::new(4, 0);
    l.report(true);
    assert_eq!(l.steps_used(), 1);
}

#[test]
fn modes_bound_their_loops() {
    assert_eq!(loop_limit(StopMode::Fixed { loops: 3 }, 8), 3);
    assert_eq!(loop_limit(StopMode::Act, 8), 8);
    assert_eq!(loop_limit(StopMode::Converge, 8), 8);
    assert_eq!(real_count(&[4, 0, 2]), 6);
}

fn ids() -> ParamIds {
    ParamIds {
        embed: 14,
        q: 13,
        k: 12,
        v: 11,
        o: 10,
        gate: 9,
        up: 8,
        down: 7,
        norm1: 6,
        norm2: 5,
        norm_f: 4,
        halt_w: 3,
        halt_b: 2,
        head: 1,
    }
}

#[test]
fn muon_ids_cover_seven_matrices() {
    assert_eq!(ids().muon_ids().len(), 7);
    assert_eq!(ids().precond_roles().len(), 7);
}

#[test]
fn grad_specs_cover_every_param() {
    let named = ids().grad_specs();
    assert_eq!(named.len(), 14);
    assert_eq!((named[0].name, named[0].id, named[0].rank), ("embed", 14, 2));
    assert_eq!((named[12].name, named[12].id, named[12].rank), ("halt_b", 2, 1));
}

#[test]
fn gradients_go_to_one_optimizer_each() {
    let present = vec![1, 2, 7, 13, 9, 14];
    let split = split_grads(&ids().muon_ids(), &present);
    assert_eq!(split.moved, vec![7, 9, 13]);
    assert_eq!(split.rest, vec![1, 2, 14]);
    let plan = precondition_grads(&ids().precond_roles(), &split.moved);
    assert_eq!(
        plan.steps,
        vec![
            (7, PrecondInput::MlpHidden),
            (9, PrecondInput::MlpIn),
            (13, PrecondInput::AttnIn),
        ]
    );
    assert!(plan.leftover.is_empty());
    let bare = precondition_grads(&[], &[3, 4]);
    assert!(bare.steps.is_empty());
    assert_eq!(bare.leftover, vec![3, 4]);
    assert_eq!(sorted_ids(&[5, 3, 5, 4]), vec![3, 4, 5]);
}

#[test]
fn gradients_merge_by_presence() {
    let specs = ids().grad_specs();
    let plan = merge_grads(&specs, &[14, 6], &[14, 13]);
    assert_eq!(
        plan,
        vec![
            MergeStep { id: 14, rank: 2, how: MergeHow::Sum },
            MergeStep { id: 13, rank: 2, how: MergeHow::TakeNext },
            MergeStep { id: 6, rank: 1, how: MergeHow::KeepAcc },
        ]
    );
    // A parameter listed twice is merged once.
    let twice = vec![specs[0], specs[0]];
    let plan = merge_grads(&twice, &[14], &[14]);
    assert_eq!(plan[0].how, MergeHow::Sum);
    assert_eq!(plan[1].how, MergeHow::KeepAcc);
}

#[test]
fn inverses_refresh_on_schedule() {
    let mut nm = NewtonMuon::new(8, 16, &NewtonMuonConfig::new());
    let mut refreshed = vec![];
    for step in 1..=70 {
        if nm.maybe_refresh() {
            refreshed.push(step);
        }
    }
    assert_eq!(refreshed, vec![32, 64]);
    assert_eq!(nm.group(PrecondInput::AttnIn), 8);
    assert_eq!(nm.group(PrecondInput::MlpHidden), 16);
    let never = NewtonMuonConfig { refresh_every: 0, ns_steps: 5 };
    let mut nm = NewtonMuon::new(8, 16, &never);
    assert!(!nm.maybe_refresh());
}
