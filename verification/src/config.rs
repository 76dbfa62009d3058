//! Configuration of the layer.
use crate::float::{F32, F64, ONE_32};
use vstd::prelude::*;

verus! {

/// Log-space decay floor of Kimi K3, `-5`, as binary64 bits: the decay stays above
/// `e^-5`.
pub const G_MIN: u64 = 0xc014_0000_0000_0000;

/// `1e-5` as binary64 bits.
pub const NORM_EPS: u64 = 0x3ee4_f8b5_88e3_68f1;

/// From decay logit to log-decay of one step.
#[derive(Clone, Copy, Debug, PartialEq, Eq, Structural)]
pub enum DecayFn {
    /// Kimi Linear: `g = -exp(A_h) * Softplus(z)`, unbounded below.
    Softplus,
    /// Kimi K3: `g = g_min * Sigmoid(exp(A_h) * z)`, bounded by `g_min`.
    Sigmoid,
}

/// Parameterization of the output gate.
#[derive(Clone, Copy, Debug, PartialEq, Eq, Structural)]
pub enum GateMode {
    /// Kimi Linear: `Sigmoid(W_down (W_up x))`.
    LowRank,
    /// Kimi K3: `Sigmoid(W x)`.
    FullRank,
}

/// Configuration of a KDA layer.
#[derive(Clone, Copy, Debug, PartialEq, Eq, Structural)]
pub struct KdaConfig {
    pub hidden_size: usize,
    pub num_heads: usize,
    pub head_dim: usize,
    pub num_v_heads: Option<usize>,
    pub expand_v: F32,
    pub use_short_conv: bool,
    /// Rank of the decay logit; zero stands for `head_dim`.
    pub rank: usize,
    pub decay_fn: DecayFn,
    /// Log-space decay floor.
    pub g_min: F64,
    pub gate: GateMode,
    pub chunk_size: usize,
    pub norm_eps: F64,
}

/// Configuration of a Gated DeltaNet 2 layer, as far as a KDA layer takes it over.
#[derive(Clone, Copy, Debug, PartialEq, Eq, Structural)]
pub struct Gdn2Config {
    pub hidden_size: usize,
    pub num_heads: usize,
    pub head_dim: usize,
    pub num_v_heads: Option<usize>,
    pub expand_v: F32,
    pub use_short_conv: bool,
    pub norm_eps: F64,
    pub chunk_size: usize,
}

impl Default for KdaConfig {
    fn default() -> (r: Self)
        ensures
            r.hidden_size == 128,
            r.num_heads == 4,
            r.head_dim == 32,
            r.num_v_heads is None,
            r.expand_v.bits == ONE_32,
            r.use_short_conv,
            r.rank == 0,
            r.decay_fn == DecayFn::Sigmoid,
            r.g_min.bits == G_MIN,
            r.gate == GateMode::FullRank,
            r.chunk_size == 16,
            r.norm_eps.bits == NORM_EPS,
    {
        KdaConfig {
            hidden_size: 128,
            num_heads: 4,
            head_dim: 32,
            num_v_heads: None,
            expand_v: F32 { bits: ONE_32 },
            use_short_conv: true,
            rank: 0,
            decay_fn: DecayFn::Sigmoid,
            g_min: F64 { bits: G_MIN },
            gate: GateMode::FullRank,
            chunk_size: 16,
            norm_eps: F64 { bits: NORM_EPS },
        }
    }
}

impl KdaConfig {
    /// The configuration of a KDA layer in place of a Gated DeltaNet 2 layer.
    pub open spec fn replaces(&self, cfg: Gdn2Config) -> bool {
        &&& self.hidden_size == cfg.hidden_size
        &&& self.num_heads == cfg.num_heads
        &&& self.head_dim == cfg.head_dim
        &&& self.num_v_heads == cfg.num_v_heads
        &&& self.expand_v == cfg.expand_v
        &&& self.use_short_conv == cfg.use_short_conv
        &&& self.rank == cfg.head_dim
        &&& self.decay_fn == DecayFn::Sigmoid
        &&& self.g_min.bits == G_MIN
        &&& self.gate == GateMode::FullRank
        &&& self.chunk_size == cfg.chunk_size
        &&& self.norm_eps == cfg.norm_eps
    }

    /// The configuration of a Gated DeltaNet 2 layer with the choices of Kimi K3: decay
    /// logits of rank `head_dim`, the bounded decay and a full-rank gate.
    pub fn from_gdn2(cfg: &Gdn2Config) -> (r: Self)
        ensures
            r.hidden_size == cfg.hidden_size,
            r.num_heads == cfg.num_heads,
            r.head_dim == cfg.head_dim,
            r.num_v_heads == cfg.num_v_heads,
            r.expand_v == cfg.expand_v,
            r.use_short_conv == cfg.use_short_conv,
            r.rank == cfg.head_dim,
            r.decay_fn == DecayFn::Sigmoid,
            r.g_min.bits == G_MIN,
            r.gate == GateMode::FullRank,
            r.chunk_size == cfg.chunk_size,
            r.norm_eps == cfg.norm_eps,
            r.replaces(*cfg),
    {
        KdaConfig {
            hidden_size: cfg.hidden_size,
            num_heads: cfg.num_heads,
            head_dim: cfg.head_dim,
            num_v_heads: cfg.num_v_heads,
            expand_v: cfg.expand_v,
            use_short_conv: cfg.use_short_conv,
            rank: cfg.head_dim,
            decay_fn: DecayFn::Sigmoid,
            g_min: F64 { bits: G_MIN },
            gate: GateMode::FullRank,
            chunk_size: cfg.chunk_size,
            norm_eps: cfg.norm_eps,
        }
    }
}

} // verus!
