//! When the fused CUDA kernels of burn-gdn2 take over the chunked recurrence, and what
//! they are given.
//!
//! The chunked form of KDA is the WY form of GDN-2 under the mapping `g = log(alpha)`,
//! `b = beta` over the key channels, `w = beta` over the value channels and a scale of
//! one. The kernels run on a device; the caller launches a [`FusedCall`] and hands back
//! what came of it.
use crate::tensor::Tensor;
use vstd::prelude::*;

verus! {

/// Largest chunk for which the kernels are numerically stable.
pub const FUSED_MAX_CHUNK: usize = 16;

/// Scale of the attention scores: KDA has none.
pub const FUSED_SCALE: u32 = 1;

/// Where tensors live.
#[derive(Clone, Copy, Debug, PartialEq, Eq, Structural)]
pub enum BackendKind {
    /// The CUDA backend itself, without a wrapper around it.
    CudaBare,
    /// Any other backend.
    Other,
}

/// A launch of the fused chunked kernels.
#[derive(Debug)]
pub struct FusedCall {
    /// Queries `[B, H, T, K]`.
    pub q: Tensor<4>,
    /// Keys `[B, H, T, K]`.
    pub k: Tensor<4>,
    /// Values `[B, H, T, V]`.
    pub v: Tensor<4>,
    /// Log-decays `[B, H, T, K]`.
    pub g: Tensor<4>,
    /// Erase gate `[B, H, T, K]`.
    pub b: Tensor<4>,
    /// Value gate `[B, H, T, V]`.
    pub w: Tensor<4>,
    /// State before the first token `[B, H, K, V]`.
    pub state: Tensor<4>,
    pub scale: u32,
    pub chunk_size: usize,
}

/// The kernels are for bare CUDA and for chunks that they compute stably.
pub open spec fn fused_applies(kind: BackendKind, chunk_size: int) -> bool {
    kind == BackendKind::CudaBare && chunk_size <= FUSED_MAX_CHUNK
}

/// `r` is the launch for a chunked pass over these tensors.
pub open spec fn launches(
    kind: BackendKind,
    q: Tensor<4>,
    k: Tensor<4>,
    v: Tensor<4>,
    log_alpha: Tensor<4>,
    beta_k: Tensor<4>,
    beta_v: Tensor<4>,
    state: Tensor<4>,
    chunk_size: usize,
    r: Option<FusedCall>,
) -> bool {
    r == if fused_applies(kind, chunk_size as int) {
        Some(
            FusedCall {
                q,
                k,
                v,
                g: log_alpha,
                b: beta_k,
                w: beta_v,
                state,
                scale: FUSED_SCALE,
                chunk_size,
            },
        )
    } else {
        None
    }
}

/// Whether tensors live on the bare CUDA backend.
fn is_cuda(kind: BackendKind) -> (r: bool)
    ensures
        r == (kind == BackendKind::CudaBare),
{
    kind == BackendKind::CudaBare
}

/// The kernel launch for a chunked pass, where the fused path applies; elsewhere the
/// tensor path computes the same form.
///
/// `q`, `k`, `log_alpha` and `beta_k` are `[B, H, T, K]`, `v` and `beta_v`
/// `[B, H, T, V]`, `state` is `[B, H, K, V]`.
pub fn kda_fused_chunk(
    kind: BackendKind,
    q: Tensor<4>,
    k: Tensor<4>,
    v: Tensor<4>,
    log_alpha: Tensor<4>,
    beta_k: Tensor<4>,
    beta_v: Tensor<4>,
    state: Tensor<4>,
    chunk_size: usize,
) -> (r: Option<FusedCall>)
    ensures
        r == if fused_applies(kind, chunk_size as int) {
            Some(
                FusedCall {
                    q,
                    k,
                    v,
                    g: log_alpha,
                    b: beta_k,
                    w: beta_v,
                    state,
                    scale: FUSED_SCALE,
                    chunk_size,
                },
            )
        } else {
            None
        },
        launches(kind, q, k, v, log_alpha, beta_k, beta_v, state, chunk_size, r),
{
    if !is_cuda(kind) || chunk_size > FUSED_MAX_CHUNK {
        return None;
    }
    Some(
        FusedCall {
            q,
            k,
            v,
            g: log_alpha,
            b: beta_k,
            w: beta_v,
            state,
            scale: FUSED_SCALE,
            chunk_size,
        },
    )
}

} // verus!
