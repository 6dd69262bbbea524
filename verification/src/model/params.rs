//! Which parameter is whose: names, ranks, optimizer and preconditioner group.

use vstd::prelude::*;

use crate::optim::PrecondInput;

verus! {

/// The ids of the model's float parameters.
#[derive(Debug, Clone, Copy, PartialEq, Eq, Structural)]
pub struct ParamIds {
    pub embed: u64,
    pub q: u64,
    pub k: u64,
    pub v: u64,
    pub o: u64,
    pub gate: u64,
    pub up: u64,
    pub down: u64,
    pub norm1: u64,
    pub norm2: u64,
    pub norm_f: u64,
    pub halt_w: u64,
    pub halt_b: u64,
    pub head: u64,
}

/// A parameter by name, id and rank.
#[derive(Debug, Clone, Copy)]
pub struct GradSpec {
    pub name: &'static str,
    pub id: u64,
    pub rank: usize,
}

/// The ids of `specs`.
pub open spec fn spec_ids(specs: Seq<GradSpec>) -> Seq<u64> {
    specs.map_values(|s: GradSpec| s.id)
}

/// The ids routed to Muon.
pub open spec fn muon_of(p: ParamIds) -> Seq<u64> {
    seq![p.q, p.k, p.v, p.o, p.gate, p.up, p.down]
}

/// The preconditioner group of every Muon parameter.
pub open spec fn roles_of(p: ParamIds) -> Seq<(u64, PrecondInput)> {
    seq![
        (p.q, PrecondInput::AttnIn),
        (p.k, PrecondInput::AttnIn),
        (p.v, PrecondInput::AttnIn),
        (p.o, PrecondInput::AttnIn),
        (p.gate, PrecondInput::MlpIn),
        (p.up, PrecondInput::MlpIn),
        (p.down, PrecondInput::MlpHidden),
    ]
}

/// All ids, in the order of their specs.
pub open spec fn ids_of(p: ParamIds) -> Seq<u64> {
    seq![
        p.embed,
        p.q,
        p.k,
        p.v,
        p.o,
        p.gate,
        p.up,
        p.down,
        p.norm1,
        p.norm2,
        p.norm_f,
        p.halt_w,
        p.halt_b,
        p.head,
    ]
}

/// The ranks of all parameters, in the order of their specs.
pub open spec fn ranks() -> Seq<usize> {
    seq![
        2usize,
        2usize,
        2usize,
        2usize,
        2usize,
        2usize,
        2usize,
        2usize,
        1usize,
        1usize,
        1usize,
        2usize,
        1usize,
        2usize,
    ]
}

impl ParamIds {
    /// 2D hidden-matrix ids routed to Muon/Newton-Muon. Everything else
    /// (embedding, norms, halt head, LM head) goes to AdamW.
    pub fn muon_ids(&self) -> (r: Vec<u64>)
        ensures
            r@ == muon_of(*self),
    {
        let mut out: Vec<u64> = Vec::new();
        out.push(self.q);
        out.push(self.k);
        out.push(self.v);
        out.push(self.o);
        out.push(self.gate);
        out.push(self.up);
        out.push(self.down);
        assert(out@ =~= muon_of(*self));
        out
    }

    /// Every float param with name and rank: the canonical id set for grad
    /// partitioning, accumulation merging, and coverage tests.
    pub fn grad_specs(&self) -> (r: Vec<GradSpec>)
        ensures
            spec_ids(r@) == ids_of(*self),
            r@.map_values(|s: GradSpec| s.rank) == ranks(),
            r@.map_values(|s: GradSpec| s.name@) == seq![
                "embed"@,
                "q"@,
                "k"@,
                "v"@,
                "o"@,
                "gate"@,
                "up"@,
                "down"@,
                "norm1"@,
                "norm2"@,
                "norm_f"@,
                "halt_w"@,
                "halt_b"@,
                "head"@,
            ],
    {
        let mut out: Vec<GradSpec> = Vec::new();
        out.push(GradSpec { name: "embed", id: self.embed, rank: 2 });
        out.push(GradSpec { name: "q", id: self.q, rank: 2 });
        out.push(GradSpec { name: "k", id: self.k, rank: 2 });
        out.push(GradSpec { name: "v", id: self.v, rank: 2 });
        out.push(GradSpec { name: "o", id: self.o, rank: 2 });
        out.push(GradSpec { name: "gate", id: self.gate, rank: 2 });
        out.push(GradSpec { name: "up", id: self.up, rank: 2 });
        out.push(GradSpec { name: "down", id: self.down, rank: 2 });
        out.push(GradSpec { name: "norm1", id: self.norm1, rank: 1 });
        out.push(GradSpec { name: "norm2", id: self.norm2, rank: 1 });
        out.push(GradSpec { name: "norm_f", id: self.norm_f, rank: 1 });
        out.push(GradSpec { name: "halt_w", id: self.halt_w, rank: 2 });
        out.push(GradSpec { name: "halt_b", id: self.halt_b, rank: 1 });
        out.push(GradSpec { name: "head", id: self.head, rank: 2 });
        assert(spec_ids(out@) =~= ids_of(*self));
        assert(out@.map_values(|s: GradSpec| s.rank) =~= ranks());
        assert(out@.map_values(|s: GradSpec| s.name@) =~= seq![
            "embed"@,
            "q"@,
            "k"@,
            "v"@,
            "o"@,
            "gate"@,
            "up"@,
            "down"@,
            "norm1"@,
            "norm2"@,
            "norm_f"@,
            "halt_w"@,
            "halt_b"@,
            "head"@,
        ]);
        out
    }

    /// Newton-Muon input group per hidden matrix.
    pub fn precond_roles(&self) -> (r: Vec<(u64, PrecondInput)>)
        ensures
            r@ == roles_of(*self),
    {
        let mut out: Vec<(u64, PrecondInput)> = Vec::new();
        out.push((self.q, PrecondInput::AttnIn));
        out.push((self.k, PrecondInput::AttnIn));
        out.push((self.v, PrecondInput::AttnIn));
        out.push((self.o, PrecondInput::AttnIn));
        out.push((self.gate, PrecondInput::MlpIn));
        out.push((self.up, PrecondInput::MlpIn));
        out.push((self.down, PrecondInput::MlpHidden));
        assert(out@ =~= roles_of(*self));
        out
    }
}

/// Every Muon parameter has a preconditioner group and a spec of rank 2.
pub proof fn lemma_muon_covered(p: ParamIds, i: int)
    requires
        0 <= i < muon_of(p).len(),
    ensures
        roles_of(p)[i].0 == muon_of(p)[i],
        ids_of(p)[i + 1] == muon_of(p)[i],
        ranks()[i + 1] == 2,
{
}

/// Which parameter stands where: the order of the specs, the seven matrices of
/// the block that go to Muon, and the input that each of these is preconditioned
/// by.
pub proof fn lemma_params_spelled(p: ParamIds)
    ensures
        ids_of(p) == seq![p.embed] + muon_of(p) + seq![
            p.norm1,
            p.norm2,
            p.norm_f,
            p.halt_w,
            p.halt_b,
            p.head,
        ],
        muon_of(p) == seq![p.q, p.k, p.v, p.o] + seq![p.gate, p.up] + seq![p.down],
        roles_of(p) == seq![p.q, p.k, p.v, p.o].map_values(|id: u64| (id, PrecondInput::AttnIn))
            + seq![p.gate, p.up].map_values(|id: u64| (id, PrecondInput::MlpIn)) + seq![
            (p.down, PrecondInput::MlpHidden),
        ],
        ranks().len() == 14,
        forall|i: int|
            0 <= i < 14 ==> (#[trigger] ranks()[i] == if 8 <= i <= 10 || i == 12 {
                1usize
            } else {
                2
            }),
{
    assert(ids_of(p) =~= seq![p.embed] + muon_of(p) + seq![
        p.norm1,
        p.norm2,
        p.norm_f,
        p.halt_w,
        p.halt_b,
        p.head,
    ]);
    assert(muon_of(p) =~= seq![p.q, p.k, p.v, p.o] + seq![p.gate, p.up] + seq![p.down]);
    assert(roles_of(p) =~= seq![p.q, p.k, p.v, p.o].map_values(
        |id: u64| (id, PrecondInput::AttnIn),
    ) + seq![p.gate, p.up].map_values(|id: u64| (id, PrecondInput::MlpIn)) + seq![
        (p.down, PrecondInput::MlpHidden),
    ]);
}

} // verus!
