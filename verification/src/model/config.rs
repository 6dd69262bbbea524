//! Model configuration.

use vstd::prelude::*;

verus! {

/// Positional encoding scheme. Stateless in both variants: identical
/// parameter sets and checkpoint compatibility, different forward math.
#[derive(Debug, Clone, Copy, PartialEq, Eq, Structural)]
pub enum PosScheme {
    /// Rotary relative embeddings on Q/K (length-extrapolating).
    Rope,
    /// No explicit positions: causal-mask ordering only.
    Nope,
}

impl Default for PosScheme {
    fn default() -> (r: Self)
        ensures
            r == PosScheme::Rope,
    {
        PosScheme::Rope
    }
}

/// How the shared looped block decides depth.
#[derive(Debug, Clone, Copy, PartialEq, Eq, Structural)]
pub enum StopMode {
    /// Exactly `loops` applications of the block. No halting head, no ponder.
    Fixed { loops: usize },
    /// Graves-style ACT: per-token halt distribution + ponder penalty.
    /// Only `max_loops` and the ponder weight are forced, never the exact depth.
    Act,
    /// Latent convergence (RD-VLA style): stop when the relative state
    /// change stays below a tolerance for `conv_patience` steps.
    Converge,
}

/// Option-A base dimensions: `d_model = 256`, byte-level vocab. The ponder
/// weight, the halt bias and the convergence tolerance stay with the tensors.
///
/// Param budget (untied LM head):
/// `embed 65_536 + attn 262_144 + mlp 589_824 + norms 768 + halt 257 + head 65_536 = 984_065`.
#[derive(Debug, Clone, Copy, PartialEq, Eq, Structural)]
pub struct LoopedConfig {
    pub vocab_size: usize,
    pub d_model: usize,
    pub n_heads: usize,
    pub head_dim: usize,
    pub ffn_hidden: usize,
    pub max_loops: usize,
    pub conv_patience: usize,
    pub max_seq_len: usize,
    /// Stacked distinct blocks looped as one unit (1 = headline config).
    /// 2 blocks = 1.84M params; the comparison axis for width-vs-depth.
    pub n_blocks: usize,
    /// Positional scheme: RoPE (relative, extrapolates) or NoPE (causal
    /// mask only: the model must infer position itself). Stateless either
    /// way: same params, same checkpoints, different forward.
    pub pos_scheme: PosScheme,
}

/// What is wrong with a configuration.
#[derive(Debug, Clone, Copy, PartialEq, Eq, Structural)]
pub enum ConfigFault {
    /// `d_model` must equal `n_heads * head_dim`.
    HeadsMismatch,
    /// `head_dim` must be even for RoPE.
    OddHeadDim,
    /// `max_loops` must be at least 1.
    NoLoops,
}

/// The first fault of a configuration.
pub open spec fn fault_of(c: LoopedConfig) -> Option<ConfigFault> {
    if c.d_model != c.n_heads * c.head_dim {
        Some(ConfigFault::HeadsMismatch)
    } else if c.head_dim % 2 != 0 {
        Some(ConfigFault::OddHeadDim)
    } else if c.max_loops < 1 {
        Some(ConfigFault::NoLoops)
    } else {
        None
    }
}

/// Parameters of one block: attention, MLP and two norms.
pub open spec fn block_params(c: LoopedConfig) -> nat {
    let d = c.d_model as nat;
    4 * (d * d) + 3 * (d * c.ffn_hidden as nat) + 2 * d
}

/// Parameters of the whole model: embedding, blocks, final norm, one halting
/// gate per block, untied head.
pub open spec fn total_params(c: LoopedConfig) -> nat {
    let d = c.d_model as nat;
    let v = c.vocab_size as nat;
    let n = c.n_blocks as nat;
    v * d + n * block_params(c) + d + n * (d + 1) + v * d
}

/// The standing dimensions.
pub open spec fn standing() -> LoopedConfig {
    LoopedConfig {
        vocab_size: 256,
        d_model: 256,
        n_heads: 4,
        head_dim: 64,
        ffn_hidden: 768,
        max_loops: 8,
        conv_patience: 2,
        max_seq_len: 512,
        n_blocks: 1,
        pos_scheme: PosScheme::Rope,
    }
}

impl LoopedConfig {
    /// The standing dimensions.
    pub fn new() -> (r: Self)
        ensures
            r == standing(),
    {
        LoopedConfig {
            vocab_size: 256,
            d_model: 256,
            n_heads: 4,
            head_dim: 64,
            ffn_hidden: 768,
            max_loops: 8,
            conv_patience: 2,
            max_seq_len: 512,
            n_blocks: 1,
            pos_scheme: PosScheme::Rope,
        }
    }

    /// Agreed Option-A 1M layout.
    pub fn base_1m() -> (r: Self)
        ensures
            r == standing(),
            fault_of(r) is None,
            total_params(r) == 984_065,
    {
        LoopedConfig::new()
    }

    /// The same with `n_blocks` stacked blocks.
    pub fn with_n_blocks(self, n_blocks: usize) -> (r: Self)
        ensures
            r == (LoopedConfig { n_blocks, ..self }),
    {
        LoopedConfig { n_blocks, ..self }
    }

    /// The same with another positional scheme.
    pub fn with_pos_scheme(self, pos_scheme: PosScheme) -> (r: Self)
        ensures
            r == (LoopedConfig { pos_scheme, ..self }),
            total_params(r) == total_params(self),
    {
        LoopedConfig { pos_scheme, ..self }
    }

    /// Checks the dimensions against one another; the first fault found.
    pub fn assert_valid(&self) -> (r: Result<(), ConfigFault>)
        ensures
            (match r {
                Ok(()) => None,
                Err(fault) => Some(fault),
            }) == fault_of(*self),
    {
        match self.n_heads.checked_mul(self.head_dim) {
            None => {
                return Err(ConfigFault::HeadsMismatch);
            },
            Some(width) => {
                if self.d_model != width {
                    return Err(ConfigFault::HeadsMismatch);
                }
            },
        }
        if self.head_dim % 2 != 0 {
            return Err(ConfigFault::OddHeadDim);
        }
        if self.max_loops < 1 {
            return Err(ConfigFault::NoLoops);
        }
        Ok(())
    }

    /// Exact parameter count for the untied Option-A layout.
    pub fn param_count(&self) -> (r: usize)
        requires
            countable(*self),
        ensures
            r == total_params(*self),
    {
        let d: usize = self.d_model;
        let v: usize = self.vocab_size;
        let h: usize = self.ffn_hidden;
        let n: usize = self.n_blocks;
        proof {
            lemma_param_terms(*self);
        }
        let embed: usize = v * d;
        let square: usize = d * d;
        let gate: usize = d * h;
        let block: usize = 4 * square + 3 * gate + 2 * d;
        let blocks: usize = n * block;
        let halt: usize = n * (d + 1);
        embed + blocks + d + halt + embed
    }

    /// The parameter count, if the machine can hold it.
    pub fn checked_param_count(&self) -> (r: Option<usize>)
        ensures
            r == if countable(*self) {
                Some(total_params(*self) as usize)
            } else {
                None
            },
    {
        let d: usize = self.d_model;
        let n: usize = self.n_blocks;
        proof {
            lemma_param_signs(*self);
        }
        let square: usize = d.checked_mul(d)?.checked_mul(4)?;
        let gate: usize = d.checked_mul(self.ffn_hidden)?.checked_mul(3)?;
        let norms: usize = d.checked_mul(2)?;
        let block: usize = square.checked_add(gate)?.checked_add(norms)?;
        assert(block == block_params(*self));
        let embed: usize = self.vocab_size.checked_mul(d)?;
        let blocks: usize = n.checked_mul(block)?;
        let halt: usize = n.checked_mul(d.checked_add(1)?)?;
        embed.checked_add(blocks)?.checked_add(d)?.checked_add(halt)?.checked_add(embed)
    }
}

/// No term of the parameter count is negative.
proof fn lemma_param_signs(c: LoopedConfig)
    ensures
        0 <= c.vocab_size * c.d_model,
        0 <= c.d_model * c.d_model,
        0 <= c.d_model * c.ffn_hidden,
        0 <= c.n_blocks * block_params(c),
        0 <= c.n_blocks * (c.d_model + 1),
{
    let b = block_params(c);
    assert(0 <= c.vocab_size * c.d_model) by (nonlinear_arith);
    assert(0 <= c.d_model * c.d_model) by (nonlinear_arith);
    assert(0 <= c.d_model * c.ffn_hidden) by (nonlinear_arith);
    assert(0 <= c.n_blocks * b) by (nonlinear_arith);
    assert(0 <= c.n_blocks * (c.d_model + 1)) by (nonlinear_arith);
}

/// Whether the parameters of a model, and those of one block, can be counted.
pub open spec fn countable(c: LoopedConfig) -> bool {
    total_params(c) <= usize::MAX && block_params(c) <= usize::MAX
}

/// Every term of the parameter count is no greater than the whole.
proof fn lemma_param_terms(c: LoopedConfig)
    requires
        countable(c),
    ensures
        0 <= c.vocab_size * c.d_model <= usize::MAX,
        0 <= c.d_model * c.d_model <= usize::MAX,
        0 <= c.d_model * c.ffn_hidden <= usize::MAX,
        0 <= 4 * (c.d_model * c.d_model) <= usize::MAX,
        0 <= 3 * (c.d_model * c.ffn_hidden) <= usize::MAX,
        0 <= c.n_blocks * block_params(c) <= usize::MAX,
        0 <= c.n_blocks * (c.d_model + 1) <= usize::MAX,
        c.d_model < usize::MAX,
        c.n_blocks * block_params(c) == c.n_blocks as nat * block_params(c),
        2 * (c.vocab_size * c.d_model) + c.n_blocks * block_params(c) + c.d_model + c.n_blocks * (
        c.d_model + 1) == total_params(c),
{
    lemma_param_signs(c);
}

/// The positional scheme changes no parameter count: checkpoints fit either.
pub proof fn lemma_scheme_keeps_params(c: LoopedConfig, pos_scheme: PosScheme)
    ensures
        total_params(LoopedConfig { pos_scheme, ..c }) == total_params(c),
{
}

/// Every further block adds its own parameters and its halting gate.
pub proof fn lemma_block_adds_params(c: LoopedConfig, n: usize)
    requires
        n < usize::MAX,
    ensures
        total_params(LoopedConfig { n_blocks: (n + 1) as usize, ..c }) == total_params(
            LoopedConfig { n_blocks: n, ..c },
        ) + block_params(c) + c.d_model + 1,
{
    let b = block_params(c);
    let d = c.d_model as nat;
    let m = n as nat;
    assert((m + 1) * b == m * b + b) by (nonlinear_arith);
    assert((m + 1) * (d + 1) == m * (d + 1) + d + 1) by (nonlinear_arith);
    assert(block_params(LoopedConfig { n_blocks: n, ..c }) == b);
    assert(block_params(LoopedConfig { n_blocks: (n + 1) as usize, ..c }) == b);
}

/// The standing dimensions, spelled out.
pub proof fn lemma_standing()
    ensures
        ({
            let c = standing();
            &&& c.vocab_size == 256
            &&& c.d_model == 256
            &&& c.n_heads == 4
            &&& c.head_dim == 64
            &&& c.ffn_hidden == 768
            &&& c.max_loops == 8
            &&& c.conv_patience == 2
            &&& c.max_seq_len == 512
            &&& c.n_blocks == 1
            &&& c.pos_scheme == PosScheme::Rope
        }),
{
}

/// A configuration is sound exactly if its heads fill its width, rotate in
/// pairs, and it loops at all; a fault is reported only where it is there, and
/// the faults before it are not.
pub proof fn lemma_faults(c: LoopedConfig)
    ensures
        fault_of(c) is None <==> c.n_heads * c.head_dim == c.d_model && c.head_dim % 2 == 0
            && c.max_loops > 0,
        fault_of(c) == Some(ConfigFault::HeadsMismatch) <==> c.n_heads * c.head_dim != c.d_model,
        fault_of(c) == Some(ConfigFault::OddHeadDim) <==> c.n_heads * c.head_dim == c.d_model
            && c.head_dim % 2 == 1,
        fault_of(c) == Some(ConfigFault::NoLoops) <==> c.n_heads * c.head_dim == c.d_model
            && c.head_dim % 2 == 0 && c.max_loops == 0,
{
}

/// What the parameters are: every block has four square matrices, three between
/// the width and the hidden width and two norms, and a halting gate with a bias;
/// around them stand the embedding, the head and one norm.
pub proof fn lemma_params_by_part(c: LoopedConfig)
    ensures
        ({
            let d = c.d_model as int;
            let h = c.ffn_hidden as int;
            let attention = (d * d) + (d * d) + (d * d) + (d * d);
            let mlp = (d * h) + (d * h) + (h * d);
            let norms = d + d;
            let gate = d + 1;
            let embedding = c.vocab_size * d;
            let head = d * c.vocab_size;
            &&& block_params(c) == attention + mlp + norms
            &&& total_params(c) == embedding + c.n_blocks * (attention + mlp + norms + gate) + d
                + head
        }),
{
    let d = c.d_model as int;
    let h = c.ffn_hidden as int;
    let v = c.vocab_size as int;
    let n = c.n_blocks as int;
    let b = block_params(c) as int;
    assert(h * d == d * h) by (nonlinear_arith);
    assert(d * v == v * d) by (nonlinear_arith);
    assert(n * (b + (d + 1)) == n * b + n * (d + 1)) by (nonlinear_arith);
}

/// The parameters can be counted exactly if their number fits a machine word; a
/// model without blocks must also be able to count one block.
pub proof fn lemma_countable(c: LoopedConfig)
    ensures
        c.n_blocks > 0 ==> (countable(c) <==> total_params(c) <= usize::MAX),
        c.n_blocks == 0 ==> (countable(c) <==> total_params(c) <= usize::MAX && block_params(c)
            <= usize::MAX),
{
    if c.n_blocks > 0 {
        let n = c.n_blocks as nat;
        let b = block_params(c);
        lemma_param_signs(c);
        assert(n * b >= b) by (nonlinear_arith)
            requires
                n >= 1,
        ;
    }
}

} // verus!
