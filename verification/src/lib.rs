//! Kimi Delta Attention (KDA) layers on [burn](https://burn.dev), with their contracts.
//!
//! The recurrence of one head:
//! ```text
//! S_t = (I - beta_t k_t k_t^T) Diag(alpha_t) S_{t-1} + beta_t k_t v_t^T
//! o_t = S_t^T q_t
//! ```
//! with a write strength `beta_t = Sigmoid(W_beta x_t)` per head and a decay
//! `alpha_t = exp(g_t)` per key channel from a low-rank logit
//! `z_t = W_down (W_up x_t) + b_alpha`:
//! - Kimi Linear: `g_t = -exp(A_h) * Softplus(z_t)`
//! - Kimi K3: `g_t = g_min * Sigmoid(exp(A_h) * z_t)`
//!
//! Training runs the chunked form of the recurrence, decoding the recurrence itself.
//!
//! Numbers are carried as IEEE 754 bit patterns in plain tensors; [`backend`] hands them
//! to the numeric kernels. [`algebra`], [`chunkwise`], [`exact`], [`passes`] and [`calculus`]
//! hold the formulas in exact arithmetic, [`streaming`], [`laws`] and [`settled`] what holds
//! of the layer. [`meaning`] says what its numbers stand for, [`rounding`] what a rounded
//! number is, [`setup`] what a fresh layer is made of.
pub mod algebra;
pub mod backend;
pub mod binary32;
pub mod calculus;
pub mod chunkwise;
pub mod config;
pub mod conv;
pub mod decay;
pub mod decode;
pub mod exact;
pub mod float;
pub mod fused;
pub mod laws;
pub mod layer;
pub mod linear;
pub mod meaning;
pub mod ops;
pub mod output;
pub mod passes;
pub mod projection;
pub mod recurrence;
pub mod rounding;
pub mod settled;
pub mod setup;
pub mod step;
pub mod streaming;
pub mod tensor;
pub mod train;

pub use crate::config::{DecayFn, GateMode, Gdn2Config, KdaConfig, G_MIN};
pub use crate::decay::KdaDecay;
pub use crate::layer::KdaModule;
pub use crate::linear::Linear;
pub use crate::projection::Projection;
pub use crate::step::kda_step;
pub use crate::tensor::Tensor;
