//! The KDA layer: its parameters and how they are set up.
use crate::backend::{draw_normal, ln64, ln64_gives};
use crate::config::{GateMode, KdaConfig};
use crate::conv::CONV_TAPS;
use crate::decay::KdaDecay;
use crate::float::{above_zero, is_positive, scale_width, scaled, F64, ONE_32};
use crate::linear::{drawn, Linear, INIT_STD};
use crate::ops::repeated;
use crate::tensor::{lemma_numel1, matrix_fits, Tensor};
use vstd::prelude::*;

verus! {

/// Kimi Delta Attention layer: the delta rule with a data-dependent decay of every key
/// channel and a data-dependent write strength of every head.
///
/// `q` and `k` are the L2-normalized, `v` the plain activations of short convolutions
/// of linear maps of the input; the output is RMS-normalized, gated and mapped back to
/// the width of the model.
#[derive(Debug)]
pub struct KdaModule {
    pub q_proj: Linear,
    pub k_proj: Linear,
    pub v_proj: Linear,
    pub q_conv_w: Option<Tensor<2>>,
    pub k_conv_w: Option<Tensor<2>>,
    pub v_conv_w: Option<Tensor<2>>,
    pub decay: KdaDecay,
    /// Logits of the write strength, one per head.
    pub beta_proj: Linear,
    /// Full-rank output gate.
    pub o_gate: Option<Linear>,
    /// Low-rank output gate, first and second factor.
    pub o_gate_up: Option<Linear>,
    pub o_gate_down: Option<Linear>,
    pub gate: GateMode,
    pub o_norm_w: Tensor<1>,
    pub o_proj: Linear,
    pub d_model: usize,
    pub n_heads: usize,
    pub head_dim: usize,
    pub n_v_heads: usize,
    pub v_head_dim: usize,
    pub use_short_conv: bool,
    pub chunk_size: usize,
    pub norm_eps: F64,
}

/// Present with extents `[channels, CONV_TAPS]` where a convolution is used, else absent.
pub open spec fn conv_shaped(w: Option<Tensor<2>>, used: bool, channels: int) -> bool {
    match w {
        Some(w) => used && w.shaped(channels, CONV_TAPS as int),
        None => !used,
    }
}

/// Present with these extents where it is used, else absent.
pub open spec fn gate_shaped(w: Option<Linear>, used: bool, d_input: int, d_output: int) -> bool {
    match w {
        Some(w) => used && w.shaped(d_input, d_output),
        None => !used,
    }
}

/// Number of value heads of a configuration.
pub open spec fn value_heads(cfg: KdaConfig) -> int {
    match cfg.num_v_heads {
        Some(n) => n as int,
        None => cfg.num_heads as int,
    }
}

/// Channels per value head of a configuration.
pub open spec fn value_head_dim(cfg: KdaConfig) -> int {
    scaled(cfg.head_dim as nat, cfg.expand_v.bits, usize::MAX as nat) as int
}

/// Rank of the decay logit of a configuration.
pub open spec fn logit_rank(cfg: KdaConfig) -> int {
    if cfg.rank > 0 {
        cfg.rank as int
    } else {
        cfg.head_dim as int
    }
}

/// Every parameter of a layer with this configuration can be held in memory.
pub open spec fn parameters_fit(cfg: KdaConfig) -> bool {
    let d = cfg.hidden_size as int;
    let keys = cfg.num_heads * cfg.head_dim;
    let values = value_heads(cfg) * value_head_dim(cfg);
    &&& keys <= usize::MAX
    &&& values <= usize::MAX
    &&& cfg.use_short_conv ==> matrix_fits(keys, CONV_TAPS as int) && matrix_fits(
        values,
        CONV_TAPS as int,
    )
    &&& matrix_fits(d, keys)
    &&& matrix_fits(d, values)
    &&& matrix_fits(values, d)
    &&& matrix_fits(d, cfg.num_heads as int)
    &&& cfg.gate == GateMode::LowRank ==> matrix_fits(d, cfg.head_dim as int) && matrix_fits(
        cfg.head_dim as int,
        values,
    )
    &&& matrix_fits(d, logit_rank(cfg))
    &&& matrix_fits(logit_rank(cfg), keys)
}

impl KdaModule {
    /// Channels of all key heads.
    pub open spec fn keys(&self) -> int {
        self.n_heads * self.head_dim
    }

    /// Channels of all value heads.
    pub open spec fn values(&self) -> int {
        self.n_v_heads * self.v_head_dim
    }

    /// Parameters with the extents that the layer's dimensions ask for.
    pub open spec fn shaped(&self) -> bool {
        let d = self.d_model as int;
        &&& self.q_proj.shaped(d, self.keys())
        &&& self.k_proj.shaped(d, self.keys())
        &&& self.v_proj.shaped(d, self.values())
        &&& conv_shaped(self.q_conv_w, self.use_short_conv, self.keys())
        &&& conv_shaped(self.k_conv_w, self.use_short_conv, self.keys())
        &&& conv_shaped(self.v_conv_w, self.use_short_conv, self.values())
        &&& self.decay.shaped(
            d,
            self.n_heads as int,
            self.head_dim as int,
            self.decay.w_up.weight.dims@[1] as int,
        )
        &&& self.beta_proj.shaped(d, self.n_heads as int)
        &&& gate_shaped(self.o_gate, self.gate == GateMode::FullRank, d, self.values())
        &&& gate_shaped(
            self.o_gate_up,
            self.gate == GateMode::LowRank,
            d,
            self.head_dim as int,
        )
        &&& gate_shaped(
            self.o_gate_down,
            self.gate == GateMode::LowRank,
            self.head_dim as int,
            self.values(),
        )
        &&& self.o_norm_w.shaped(self.v_head_dim as int)
        &&& self.o_proj.shaped(self.values(), d)
    }

    /// Every weight but the biases, scales and norms of the layer is a fresh draw.
    pub open spec fn drawn(&self) -> bool {
        &&& drawn(self.q_proj.weight)
        &&& drawn(self.k_proj.weight)
        &&& drawn(self.v_proj.weight)
        &&& (self.q_conv_w matches Some(w) ==> drawn(w))
        &&& (self.k_conv_w matches Some(w) ==> drawn(w))
        &&& (self.v_conv_w matches Some(w) ==> drawn(w))
        &&& drawn(self.decay.w_up.weight)
        &&& drawn(self.decay.w_down.weight)
        &&& drawn(self.beta_proj.weight)
        &&& (self.o_gate matches Some(w) ==> drawn(w.weight))
        &&& (self.o_gate_up matches Some(w) ==> drawn(w.weight))
        &&& (self.o_gate_down matches Some(w) ==> drawn(w.weight))
        &&& drawn(self.o_proj.weight)
    }

    /// A fresh layer for this configuration and this floor in decay space.
    pub open spec fn built(&self, cfg: KdaConfig, min_decay: F64) -> bool {
        &&& self.shaped()
        &&& self.drawn()
        &&& self.d_model == cfg.hidden_size
        &&& self.n_heads == cfg.num_heads
        &&& self.head_dim == cfg.head_dim
        &&& self.n_v_heads == value_heads(cfg)
        &&& self.v_head_dim == value_head_dim(cfg)
        &&& self.decay.w_up.weight.dims@[1] == logit_rank(cfg)
        &&& self.decay.decay_fn == cfg.decay_fn
        &&& is_positive(min_decay.bits) ==> ln64_gives(min_decay.bits, self.decay.g_min.bits)
        &&& !is_positive(min_decay.bits) ==> self.decay.g_min == cfg.g_min
        &&& forall|i: int| 0 <= i < self.keys() ==> #[trigger] self.decay.b_alpha.at(i) == 0
        &&& forall|h: int| 0 <= h < self.n_heads ==> #[trigger] self.decay.a_log.at(h, 0) == 0
        &&& forall|c: int|
            0 <= c < self.v_head_dim ==> #[trigger] self.o_norm_w.at(c) == ONE_32
        &&& self.gate == cfg.gate
        &&& self.use_short_conv == cfg.use_short_conv
        &&& self.chunk_size == cfg.chunk_size
        &&& self.norm_eps == cfg.norm_eps
    }

    /// Weights of a short convolution, where the configuration asks for one.
    fn conv(cfg: &KdaConfig, channels: usize) -> (r: Option<Tensor<2>>)
        requires
            cfg.use_short_conv ==> matrix_fits(channels as int, CONV_TAPS as int),
        ensures
            conv_shaped(r, cfg.use_short_conv, channels as int),
            r matches Some(w) ==> drawn(w),
    {
        if cfg.use_short_conv {
            Some(draw_normal(channels, CONV_TAPS, F64 { bits: 0 }, F64 { bits: INIT_STD }))
        } else {
            None
        }
    }

    /// A linear map, where it is used.
    fn linear_if(used: bool, d_input: usize, d_output: usize) -> (r: Option<Linear>)
        requires
            used ==> matrix_fits(d_input as int, d_output as int),
        ensures
            gate_shaped(r, used, d_input as int, d_output as int),
            r matches Some(w) ==> drawn(w.weight),
    {
        if used {
            Some(Linear::new(d_input, d_output))
        } else {
            None
        }
    }

    /// Builds a layer from a configuration.
    ///
    /// `min_decay` is a floor in decay space and sets the log-space floor to its
    /// logarithm; where it is not positive, the floor of the configuration holds.
    pub fn new(cfg: &KdaConfig, min_decay: F64) -> (r: Self)
        requires
            parameters_fit(*cfg),
        ensures
            r.shaped(),
            r.drawn(),
            r.d_model == cfg.hidden_size,
            r.n_heads == cfg.num_heads,
            r.head_dim == cfg.head_dim,
            r.n_v_heads == value_heads(*cfg),
            r.v_head_dim == value_head_dim(*cfg),
            r.decay.w_up.weight.dims@[1] == logit_rank(*cfg),
            r.decay.decay_fn == cfg.decay_fn,
            is_positive(min_decay.bits) ==> ln64_gives(min_decay.bits, r.decay.g_min.bits),
            !is_positive(min_decay.bits) ==> r.decay.g_min == cfg.g_min,
            forall|i: int| 0 <= i < r.keys() ==> #[trigger] r.decay.b_alpha.at(i) == 0,
            forall|h: int| 0 <= h < r.n_heads ==> #[trigger] r.decay.a_log.at(h, 0) == 0,
            forall|c: int| 0 <= c < r.v_head_dim ==> #[trigger] r.o_norm_w.at(c) == ONE_32,
            r.gate == cfg.gate,
            r.use_short_conv == cfg.use_short_conv,
            r.chunk_size == cfg.chunk_size,
            r.norm_eps == cfg.norm_eps,
            r.built(*cfg, min_decay),
    {
        let d = cfg.hidden_size;
        let h = cfg.num_heads;
        let hk = cfg.head_dim;
        let hv = match cfg.num_v_heads {
            Some(n) => n,
            None => h,
        };
        let v_head = scale_width(hk, cfg.expand_v);
        let rank = if cfg.rank > 0 {
            cfg.rank
        } else {
            hk
        };
        let g_min = if above_zero(min_decay) {
            ln64(min_decay)
        } else {
            cfg.g_min
        };
        let keys = h * hk;
        let values = hv * v_head;
        let o_norm_w = Tensor { dims: [v_head], bits: repeated(v_head, ONE_32) };
        proof {
            lemma_numel1(o_norm_w.dims@);
        }
        KdaModule {
            q_proj: Linear::new(d, keys),
            k_proj: Linear::new(d, keys),
            v_proj: Linear::new(d, values),
            q_conv_w: Self::conv(cfg, keys),
            k_conv_w: Self::conv(cfg, keys),
            v_conv_w: Self::conv(cfg, values),
            decay: KdaDecay::new(d, h, hk, rank, g_min, cfg.decay_fn),
            beta_proj: Linear::new(d, h),
            o_gate: Self::linear_if(cfg.gate == GateMode::FullRank, d, values),
            o_gate_up: Self::linear_if(cfg.gate == GateMode::LowRank, d, hk),
            o_gate_down: Self::linear_if(cfg.gate == GateMode::LowRank, hk, values),
            gate: cfg.gate,
            o_norm_w,
            o_proj: Linear::new(values, d),
            d_model: d,
            n_heads: h,
            head_dim: hk,
            n_v_heads: hv,
            v_head_dim: v_head,
            use_short_conv: cfg.use_short_conv,
            chunk_size: cfg.chunk_size,
            norm_eps: cfg.norm_eps,
        }
    }
}

} // verus!
