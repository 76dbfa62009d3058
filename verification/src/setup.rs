//! What a fresh layer is made of, and when the fused kernels are launched.
use crate::backend::{ln64_gives, normal_gives};
use crate::config::{DecayFn, GateMode, Gdn2Config, KdaConfig, G_MIN, NORM_EPS};
use crate::decay::KdaDecay;
use crate::float::{law_unit_factor, num, scaled, F64, ONE_32};
use crate::fused::{launches, BackendKind, FusedCall};
use crate::layer::KdaModule;
use crate::linear::{drawn, INIT_STD};
use crate::projection::L2_EPS;
use crate::tensor::Tensor;
use vstd::arithmetic::power2::{lemma_pow2_adds, lemma2_to64, lemma2_to64_rest, pow2};
use vstd::prelude::*;

verus! {

/// The binary64 pattern stands for `m * 2^-k`.
pub open spec fn stands64(bits: u64, m: nat, k: nat) -> bool {
    &&& 0x10_0000_0000_0000 <= m < 0x20_0000_0000_0000
    &&& bits == (1075 - k) * 0x10_0000_0000_0000 + (m - 0x10_0000_0000_0000)
}

/// `m * 2^-k` is within half a unit of its last digit of `n / d`.
pub open spec fn nearest64(m: nat, k: nat, n: nat, d: nat) -> bool {
    let x = 2 * (m * d);
    let y = 2 * (n * pow2(k));
    x <= y + d && y <= x + d
}

/// The constants of the layer are the binary64 numbers next to `1e-6`, `1e-5` and `0.02`,
/// and the floor is `-5`.
pub proof fn law_constants()
    ensures
        exists|m: nat, k: nat| #[trigger]
            stands64(L2_EPS, m, k) && nearest64(m, k, 1, 1_000_000),
        exists|m: nat, k: nat| #[trigger]
            stands64(NORM_EPS, m, k) && nearest64(m, k, 1, 100_000),
        exists|m: nat, k: nat| #[trigger]
            stands64(INIT_STD, m, k) && nearest64(m, k, 2, 100),
        G_MIN >= 0x8000_0000_0000_0000,
        exists|m: nat, k: nat| #[trigger]
            stands64((G_MIN - 0x8000_0000_0000_0000) as u64, m, k) && m == 5 * pow2(k),
{
    lemma2_to64();
    lemma2_to64_rest();
    lemma_pow2_adds(64, 8);
    lemma_pow2_adds(64, 5);
    assert(stands64(L2_EPS, 0x10_c6f7_a0b5_ed8d, 72));
    assert(nearest64(0x10_c6f7_a0b5_ed8d, 72, 1, 1_000_000));
    assert(stands64(NORM_EPS, 0x14_f8b5_88e3_68f1, 69));
    assert(nearest64(0x14_f8b5_88e3_68f1, 69, 1, 100_000));
    assert(stands64(INIT_STD, 0x14_7ae1_47ae_147b, 58));
    assert(nearest64(0x14_7ae1_47ae_147b, 58, 2, 100));
    assert(stands64((G_MIN - 0x8000_0000_0000_0000) as u64, 0x14_0000_0000_0000, 50));
}

/// Every element of a tensor is a draw from the normal distribution around zero with a
/// standard deviation of `0.02`.
pub open spec fn initial(w: Tensor<2>) -> bool {
    forall|i: int|
        0 <= i < w.bits@.len() ==> normal_gives(0, 0x3f94_7ae1_47ae_147b, num(#[trigger] w.bits@[i]))
}

/// A fresh layer has the dimensions of its configuration: a rank of zero stands for the
/// channels of a head, and without value heads there are as many as key heads. Its floor is
/// the logarithm of a floor above zero in decay space, else that of the configuration. Every
/// map takes and gives the channels that it should, and is drawn; the bias and the
/// log-scales are zero, the norm weighs by one.
pub proof fn law_fresh_layer(r: KdaModule, cfg: KdaConfig, min_decay: F64)
    requires
        r.built(cfg, min_decay),
    ensures
        r.d_model == cfg.hidden_size && r.n_heads == cfg.num_heads && r.head_dim == cfg.head_dim,
        cfg.num_v_heads matches Some(n) ==> r.n_v_heads == n,
        cfg.num_v_heads is None ==> r.n_v_heads == cfg.num_heads,
        r.v_head_dim == scaled(cfg.head_dim as nat, cfg.expand_v.bits, usize::MAX as nat),
        cfg.expand_v.bits == ONE_32 && cfg.head_dim < 0x100_0000 ==> r.v_head_dim == cfg.head_dim,
        r.decay.w_up.weight.dims@[1] == if cfg.rank == 0 {
            cfg.head_dim
        } else {
            cfg.rank
        },
        r.chunk_size == cfg.chunk_size && r.norm_eps == cfg.norm_eps && r.gate == cfg.gate,
        r.use_short_conv == cfg.use_short_conv && r.decay.decay_fn == cfg.decay_fn,
        0 < min_decay.bits <= 0x7ff0_0000_0000_0000 ==> ln64_gives(
            min_decay.bits,
            r.decay.g_min.bits,
        ),
        !(0 < min_decay.bits <= 0x7ff0_0000_0000_0000) ==> r.decay.g_min == cfg.g_min,
        r.q_proj.weight.shaped(cfg.hidden_size as int, cfg.num_heads * cfg.head_dim),
        r.k_proj.weight.shaped(cfg.hidden_size as int, cfg.num_heads * cfg.head_dim),
        r.v_proj.weight.shaped(cfg.hidden_size as int, r.n_v_heads * r.v_head_dim),
        r.beta_proj.weight.shaped(cfg.hidden_size as int, cfg.num_heads as int),
        r.o_proj.weight.shaped(r.n_v_heads * r.v_head_dim, cfg.hidden_size as int),
        r.decay.w_up.weight.dims@[0] == cfg.hidden_size,
        r.decay.w_down.weight.shaped(
            r.decay.w_up.weight.dims@[1] as int,
            cfg.num_heads * cfg.head_dim,
        ),
        r.o_gate is Some <==> cfg.gate == GateMode::FullRank,
        r.o_gate_up is Some <==> cfg.gate == GateMode::LowRank,
        r.o_gate_down is Some <==> cfg.gate == GateMode::LowRank,
        r.o_gate matches Some(w) ==> w.weight.shaped(
            cfg.hidden_size as int,
            r.n_v_heads * r.v_head_dim,
        ) && initial(w.weight),
        r.o_gate_up matches Some(w) ==> w.weight.shaped(
            cfg.hidden_size as int,
            cfg.head_dim as int,
        ) && initial(w.weight),
        r.o_gate_down matches Some(w) ==> w.weight.shaped(
            cfg.head_dim as int,
            r.n_v_heads * r.v_head_dim,
        ) && initial(w.weight),
        r.q_conv_w is Some <==> cfg.use_short_conv,
        r.k_conv_w is Some <==> cfg.use_short_conv,
        r.v_conv_w is Some <==> cfg.use_short_conv,
        r.q_conv_w matches Some(w) ==> w.shaped(cfg.num_heads * cfg.head_dim, 4) && initial(w),
        r.k_conv_w matches Some(w) ==> w.shaped(cfg.num_heads * cfg.head_dim, 4) && initial(w),
        r.v_conv_w matches Some(w) ==> w.shaped(r.n_v_heads * r.v_head_dim, 4) && initial(w),
        initial(r.q_proj.weight) && initial(r.k_proj.weight) && initial(r.v_proj.weight),
        initial(r.beta_proj.weight) && initial(r.o_proj.weight),
        initial(r.decay.w_up.weight) && initial(r.decay.w_down.weight),
        r.decay.b_alpha.shaped(cfg.num_heads * cfg.head_dim),
        forall|i: int|
            0 <= i < cfg.num_heads * cfg.head_dim ==> #[trigger] r.decay.b_alpha.at(i) == 0,
        r.decay.a_log.shaped(cfg.num_heads as int, 1),
        forall|h: int| 0 <= h < cfg.num_heads ==> #[trigger] r.decay.a_log.at(h, 0) == 0,
        r.o_norm_w.shaped(r.v_head_dim as int),
        forall|c: int| 0 <= c < r.v_head_dim ==> #[trigger] r.o_norm_w.at(c) == ONE_32,
{
    if cfg.expand_v.bits == ONE_32 && cfg.head_dim < 0x100_0000 {
        law_unit_factor(cfg.head_dim as nat, usize::MAX as nat);
    }
}

/// Fresh decay parameters: drawn maps of the extents asked for, no bias, scales of one, and
/// the floor and the mapping given.
pub proof fn law_fresh_decay(
    r: KdaDecay,
    d_model: int,
    n_heads: int,
    head_dim: int,
    rank: int,
    g_min: F64,
    decay_fn: DecayFn,
)
    requires
        r.built(d_model, n_heads, head_dim, rank, g_min, decay_fn),
    ensures
        r.w_up.weight.shaped(d_model, rank) && initial(r.w_up.weight),
        r.w_down.weight.shaped(rank, n_heads * head_dim) && initial(r.w_down.weight),
        r.b_alpha.shaped(n_heads * head_dim),
        forall|i: int| 0 <= i < n_heads * head_dim ==> #[trigger] r.b_alpha.at(i) == 0,
        r.a_log.shaped(n_heads, 1),
        forall|h: int| 0 <= h < n_heads ==> #[trigger] r.a_log.at(h, 0) == 0,
        r.g_min == g_min && r.decay_fn == decay_fn,
{
}

/// Weights are drawn around zero with a standard deviation of `0.02`.
pub proof fn law_drawn(w: Tensor<2>)
    ensures
        drawn(w) == initial(w),
{
}

/// In place of a Gated DeltaNet 2 layer: two configurations that give the same one are the
/// same, so that nothing of it is lost, and the choices of Kimi K3 do not depend on it.
pub proof fn law_replacement_is_faithful(a: Gdn2Config, b: Gdn2Config, r: KdaConfig, s: KdaConfig)
    requires
        r.replaces(a),
        s.replaces(b),
    ensures
        r == s <==> a == b,
        r.hidden_size == a.hidden_size && r.num_heads == a.num_heads && r.head_dim == a.head_dim,
        r.num_v_heads == a.num_v_heads && r.expand_v == a.expand_v,
        r.use_short_conv == a.use_short_conv && r.chunk_size == a.chunk_size,
        r.norm_eps == a.norm_eps,
        r.rank == r.head_dim,
        r.decay_fn == s.decay_fn && r.gate == s.gate && r.g_min == s.g_min,
        r.decay_fn == DecayFn::Sigmoid && r.gate == GateMode::FullRank,
        r.g_min.bits == 0xc014_0000_0000_0000,
{
}

/// The kernels are launched for the bare CUDA backend and chunks of up to sixteen tokens,
/// and nowhere else; a launch hands on every tensor as it was given, without a scale.
pub proof fn law_launch(
    kind: BackendKind,
    q: Tensor<4>,
    k: Tensor<4>,
    v: Tensor<4>,
    log_alpha: Tensor<4>,
    beta_k: Tensor<4>,
    beta_v: Tensor<4>,
    state: Tensor<4>,
    chunk_size: usize,
    r: Option<FusedCall>,
)
    requires
        launches(kind, q, k, v, log_alpha, beta_k, beta_v, state, chunk_size, r),
    ensures
        r is Some <==> kind == BackendKind::CudaBare && chunk_size <= 16,
        r matches Some(c) ==> {
            &&& c.q == q && c.k == k && c.v == v
            &&& c.g == log_alpha && c.b == beta_k && c.w == beta_v
            &&& c.state == state && c.scale == 1 && c.chunk_size == chunk_size
        },
{
}

} // verus!
