//! From hidden states to the inputs of the recurrence.
use crate::backend::{
    l2_gives, l2_normalize, ln_gives, sigmoid_gives, silu_gives,
};
use crate::config::GateMode;
use crate::conv::{conv_gives, conv_window, short_conv};
use crate::float::F64;
use crate::layer::KdaModule;
use crate::linear::Linear;
use crate::ops::{
    heads_of, ln4, repeat_heads, sigmoid3, silu3, split_heads, spread_strength, strengths_of,
};
use crate::tensor::{
    laid_out, lemma_plain4, lemma_room3, lemma_room4, nonempty, Tensor,
};
use vstd::prelude::*;

verus! {

/// Stabilizer of the L2 normalization of queries and keys, `1e-6`, as binary64 bits.
pub const L2_EPS: u64 = 0x3eb0_c6f7_a0b5_ed8d;

/// The inputs of the recurrence, heads before tokens.
#[derive(Debug)]
pub struct Projection {
    /// Queries `[B, H, T, K]`.
    pub q: Tensor<4>,
    /// Keys `[B, H, T, K]`.
    pub k: Tensor<4>,
    /// Values `[B, HV, T, V]`.
    pub v: Tensor<4>,
    /// Log-decays `[B, H, T, K]`.
    pub g: Tensor<4>,
    /// Write strengths over the key channels `[B, H, T, K]`.
    pub beta_k: Tensor<4>,
    /// Write strengths over the value channels `[B, H, T, V]`.
    pub beta_v: Tensor<4>,
    /// Output gates `[B, HV, T, V]`.
    pub gate: Tensor<4>,
}

/// `y` holds logistic values that `x` may have, element by element.
pub open spec fn sigmoids(x: Tensor<3>, y: Tensor<3>) -> bool {
    &&& y.shaped(x.dims@[0] as int, x.dims@[1] as int, x.dims@[2] as int)
    &&& forall|i: int, j: int, k: int|
        y.has(i, j, k) ==> sigmoid_gives(x.at(i, j, k), #[trigger] y.at(i, j, k))
}

/// `y` holds L2-normalized rows that `x` may have.
pub open spec fn normalizes(x: Tensor<3>, y: Tensor<3>) -> bool {
    &&& y.shaped(x.dims@[0] as int, x.dims@[1] as int, x.dims@[2] as int)
    &&& forall|i: int, j: int|
        0 <= i < x.dims@[0] && 0 <= j < x.dims@[1] ==> l2_gives(
            x.row(i, j),
            L2_EPS,
            #[trigger] y.row(i, j),
        )
}

/// `y` holds natural logarithms that `x` may have, element by element.
pub open spec fn logarithms(x: Tensor<4>, y: Tensor<4>) -> bool {
    &&& y.shaped(x.dims@[0] as int, x.dims@[1] as int, x.dims@[2] as int, x.dims@[3] as int)
    &&& forall|i: int, j: int, k: int, l: int|
        y.has(i, j, k, l) ==> ln_gives(x.at(i, j, k, l), #[trigger] y.at(i, j, k, l))
}

/// `r` holds the heads of `x` `[B, T, H, C]` before the tokens, `rep` consecutive heads
/// sharing one of them.
pub open spec fn repeats_heads(x: Tensor<4>, heads: int, rep: int, r: Tensor<4>) -> bool {
    &&& r.shaped(x.dims@[0] as int, heads, x.dims@[1] as int, x.dims@[3] as int)
    &&& forall|i: int, j: int, t: int, k: int|
        r.has(i, j, t, k) ==> #[trigger] r.at(i, j, t, k) == x.at(i, t, j / rep, k)
}

impl KdaModule {
    /// Dimensions that are not empty; more value heads than key heads come in whole
    /// groups.
    pub open spec fn wf(&self) -> bool {
        &&& self.shaped()
        &&& self.decay.w_up.weight.dims@[1] > 0
        &&& self.d_model > 0
        &&& self.n_heads > 0
        &&& self.head_dim > 0
        &&& self.n_v_heads > 0
        &&& self.v_head_dim > 0
        &&& self.n_v_heads > self.n_heads ==> self.n_v_heads as int % self.n_heads as int == 0
    }

    /// Heads of the queries and keys once they are repeated for the value heads.
    pub open spec fn heads(&self) -> int {
        if self.n_v_heads > self.n_heads {
            self.n_v_heads as int
        } else {
            self.n_heads as int
        }
    }

    /// Value heads that share a key head.
    pub open spec fn group(&self) -> int {
        self.heads() / self.n_heads as int
    }

    /// The arrays for these numbers of batches and tokens can be held in memory.
    pub open spec fn fits(&self, b: int, t: int) -> bool {
        let n = nonempty(b);
        &&& n * t * self.keys() <= isize::MAX
        &&& n * t * self.values() <= isize::MAX
        &&& n * t * self.n_heads <= isize::MAX
        &&& n * t * self.d_model <= isize::MAX
        &&& self.decay.fits(b, t)
        &&& self.gate == GateMode::LowRank ==> n * t * self.head_dim <= isize::MAX
        &&& n * self.heads() * t * self.head_dim <= isize::MAX
        &&& n * self.heads() * t * self.v_head_dim <= isize::MAX
        &&& n * self.n_v_heads * t * self.v_head_dim <= isize::MAX
        &&& n * self.n_v_heads * self.head_dim * self.v_head_dim <= isize::MAX
    }

    /// `y` holds activations that `x` may have: of a short convolution where the layer
    /// uses them, else of the elements themselves.
    pub open spec fn activates(&self, conv: Option<Tensor<2>>, x: Tensor<3>, y: Tensor<3>) -> bool {
        &&& y.shaped(x.dims@[0] as int, x.dims@[1] as int, x.dims@[2] as int)
        &&& forall|i: int, t: int, c: int|
            y.has(i, t, c) ==> match conv {
                Some(w) => conv_gives(
                    conv_window(x, i, t, c),
                    w.row(c),
                    #[trigger] y.at(i, t, c),
                ),
                None => silu_gives(x.at(i, t, c), y.at(i, t, c)),
            }
    }

    /// `r` holds queries or keys that the layer may give for `x`: mapped, activated,
    /// normalized and split into heads.
    pub open spec fn keyed(
        &self,
        proj: Linear,
        conv: Option<Tensor<2>>,
        x: Tensor<3>,
        r: Tensor<4>,
    ) -> bool {
        exists|raw: Tensor<3>, act: Tensor<3>, unit: Tensor<3>|
            {
                &&& #[trigger] proj.maps(x, raw)
                &&& #[trigger] self.activates(conv, raw, act)
                &&& #[trigger] normalizes(act, unit)
                &&& heads_of(unit, self.heads(), self.group(), self.head_dim as int, r)
            }
    }

    /// `r` holds values that the layer may give for `x`: mapped, activated and split
    /// into heads.
    pub open spec fn valued(&self, x: Tensor<3>, r: Tensor<4>) -> bool {
        exists|raw: Tensor<3>, act: Tensor<3>|
            {
                &&& #[trigger] self.v_proj.maps(x, raw)
                &&& #[trigger] self.activates(self.v_conv_w, raw, act)
                &&& heads_of(act, self.n_v_heads as int, 1, self.v_head_dim as int, r)
            }
    }

    /// `r` holds log-decays that the layer may give for `x`.
    pub open spec fn log_decayed(&self, x: Tensor<3>, r: Tensor<4>) -> bool {
        exists|alpha: Tensor<4>, g: Tensor<4>|
            {
                &&& #[trigger] self.decay.decays(x, alpha)
                &&& #[trigger] logarithms(alpha, g)
                &&& repeats_heads(g, self.heads(), self.group(), r)
            }
    }

    /// `over_k` and `over_v` hold write strengths that the layer may give for `x`: one
    /// number per token and head, over the key and over the value channels.
    pub open spec fn strengthened(
        &self,
        x: Tensor<3>,
        over_k: Tensor<4>,
        over_v: Tensor<4>,
    ) -> bool {
        exists|logit: Tensor<3>, beta: Tensor<3>|
            {
                &&& #[trigger] self.beta_proj.maps(x, logit)
                &&& #[trigger] sigmoids(logit, beta)
                &&& strengths_of(beta, self.heads(), self.group(), self.head_dim as int, over_k)
                &&& strengths_of(beta, self.heads(), self.group(), self.v_head_dim as int, over_v)
            }
    }

    /// `y` holds gate logits that the layer may give for `x`.
    pub open spec fn gate_logits(&self, x: Tensor<3>, y: Tensor<3>) -> bool {
        match self.gate {
            GateMode::FullRank => self.o_gate.unwrap().maps(x, y),
            GateMode::LowRank => exists|u: Tensor<3>| #[trigger]
                self.o_gate_up.unwrap().maps(x, u) && self.o_gate_down.unwrap().maps(u, y),
        }
    }

    /// `r` holds output gates that the layer may give for `x`.
    pub open spec fn gated(&self, x: Tensor<3>, r: Tensor<4>) -> bool {
        exists|logit: Tensor<3>, s: Tensor<3>|
            {
                &&& #[trigger] self.gate_logits(x, logit)
                &&& #[trigger] sigmoids(logit, s)
                &&& heads_of(s, self.n_v_heads as int, 1, self.v_head_dim as int, r)
            }
    }

    /// `p` is a projection that the layer may give for `x`.
    pub open spec fn projects(&self, x: Tensor<3>, p: Projection) -> bool {
        &&& self.keyed(self.q_proj, self.q_conv_w, x, p.q)
        &&& self.keyed(self.k_proj, self.k_conv_w, x, p.k)
        &&& self.valued(x, p.v)
        &&& self.log_decayed(x, p.g)
        &&& self.strengthened(x, p.beta_k, p.beta_v)
        &&& self.gated(x, p.gate)
    }

    /// `p` has the extents of a projection of `t` tokens in `b` batches.
    pub open spec fn projection_shaped(&self, p: Projection, b: int, t: int) -> bool {
        let h = self.heads();
        let hv = self.n_v_heads as int;
        let k = self.head_dim as int;
        let v = self.v_head_dim as int;
        &&& p.q.shaped(b, h, t, k)
        &&& p.k.shaped(b, h, t, k)
        &&& p.v.shaped(b, hv, t, v)
        &&& p.g.shaped(b, h, t, k)
        &&& p.beta_k.shaped(b, h, t, k)
        &&& p.beta_v.shaped(b, h, t, v)
        &&& p.gate.shaped(b, hv, t, v)
    }

    /// `x` is an input of this layer: hidden states `[B, T, D]` with at least one token.
    pub open spec fn takes(&self, x: Tensor<3>) -> bool {
        &&& x.wf()
        &&& x.dims@[1] > 0
        &&& x.dims@[2] == self.d_model
        &&& self.fits(x.dims@[0] as int, x.dims@[1] as int)
    }

    fn activate(&self, conv: &Option<Tensor<2>>, x: &Tensor<3>) -> (y: Tensor<3>)
        requires
            x.wf(),
            x.dims@[1] > 0,
            crate::layer::conv_shaped(*conv, self.use_short_conv, x.dims@[2] as int),
        ensures
            self.activates(*conv, *x, y),
    {
        match conv {
            Some(w) => short_conv(x, w),
            None => silu3(x),
        }
    }

    fn normalize(x: &Tensor<3>) -> (y: Tensor<3>)
        requires
            x.wf(),
            laid_out(x.dims@),
        ensures
            normalizes(*x, y),
    {
        l2_normalize(x, F64 { bits: L2_EPS })
    }

    /// Queries or keys.
    fn key_side(
        &self,
        proj: &Linear,
        conv: &Option<Tensor<2>>,
        x: &Tensor<3>,
        heads: usize,
        rep: usize,
    ) -> (r: Tensor<4>)
        requires
            self.wf(),
            self.takes(*x),
            proj.shaped(self.d_model as int, self.keys()),
            crate::layer::conv_shaped(*conv, self.use_short_conv, self.keys()),
            heads == self.heads(),
            rep == self.group(),
        ensures
            self.keyed(*proj, *conv, *x, r),
            r.shaped(
                x.dims@[0] as int,
                self.heads(),
                x.dims@[1] as int,
                self.head_dim as int,
            ),
    {
        let ghost b = x.dims@[0] as int;
        let ghost t = x.dims@[1] as int;
        proof {
            self.lemma_groups();
            self.lemma_fits(b, t);
            Self::lemma_laid_out(*x, b, t, self.d_model as int);
        }
        let raw = proj.forward(x);
        let act = self.activate(conv, &raw);
        proof {
            Self::lemma_laid_out(act, b, t, self.keys());
        }
        let unit = Self::normalize(&act);
        split_heads(&unit, heads, rep, self.head_dim)
    }

    /// The repeated heads come in whole groups, one per key head.
    pub proof fn lemma_groups(&self)
        requires
            self.wf(),
        ensures
            self.group() > 0,
            self.heads() % self.group() == 0,
            self.heads() / self.group() == self.n_heads,
            self.heads() == self.n_heads * self.group(),
            self.keys() > 0,
            self.values() > 0,
    {
        let h = self.n_heads as int;
        let n = self.heads();
        let g = self.group();
        vstd::arithmetic::div_mod::lemma_fundamental_div_mod(n, h);
        assert(n % h == 0) by {
            if self.n_v_heads <= self.n_heads {
                vstd::arithmetic::div_mod::lemma_mod_self_0(h);
            }
        }
        assert(n == h * g);
        assert(g > 0) by (nonlinear_arith)
            requires
                n == h * g,
                n > 0,
                h > 0,
        ;
        vstd::arithmetic::div_mod::lemma_fundamental_div_mod_converse(n, g, h, 0);
        assert(self.keys() > 0 && self.values() > 0) by (nonlinear_arith)
            requires
                self.n_heads > 0,
                self.head_dim > 0,
                self.n_v_heads > 0,
                self.v_head_dim > 0,
        ;
    }

    /// The arrays of a pass have numbers of elements.
    pub(crate) proof fn lemma_fits(&self, b: int, t: int)
        requires
            self.wf(),
            0 <= b,
            0 < t,
            self.fits(b, t),
        ensures
            b * self.heads() * t * self.head_dim <= usize::MAX,
            b * self.heads() * t * self.v_head_dim <= usize::MAX,
            b * self.n_v_heads * t * self.v_head_dim <= usize::MAX,
            b * self.n_v_heads * self.head_dim * self.v_head_dim <= usize::MAX,
    {
        let hk = self.head_dim as int;
        let vd = self.v_head_dim as int;
        lemma_plain4(b, self.heads(), t, hk);
        lemma_plain4(b, self.heads(), t, vd);
        lemma_plain4(b, self.n_v_heads as int, t, vd);
        lemma_plain4(b, self.n_v_heads as int, hk, vd);
    }

    /// Arrays over batches, tokens and channels can be laid out.
    pub(crate) proof fn lemma_laid_out(x: Tensor<3>, b: int, t: int, c: int)
        requires
            x.shaped(b, t, c),
            0 < t,
            0 < c,
            nonempty(b) * t * c <= isize::MAX,
        ensures
            laid_out(x.dims@),
    {
        lemma_room3(x.dims@);
    }

    /// Arrays over batches, heads and two more axes can be laid out.
    pub(crate) proof fn lemma_laid_out4(x: Tensor<4>, a: int, b: int, c: int, d: int)
        requires
            x.shaped(a, b, c, d),
            0 < b,
            0 < c,
            0 < d,
            nonempty(a) * b * c * d <= isize::MAX,
        ensures
            laid_out(x.dims@),
    {
        lemma_room4(x.dims@);
    }

    /// Projections, decays, write strengths and gates of the hidden states `x`, with the
    /// key side repeated for grouped value attention.
    pub fn project(&self, x: &Tensor<3>) -> (p: Projection)
        requires
            self.wf(),
            self.takes(*x),
        ensures
            self.projects(*x, p),
            self.projection_shaped(p, x.dims@[0] as int, x.dims@[1] as int),
    {
        let heads = if self.n_v_heads > self.n_heads {
            self.n_v_heads
        } else {
            self.n_heads
        };
        let rep = heads / self.n_heads;
        proof {
            self.lemma_groups();
        }
        let q = self.key_side(&self.q_proj, &self.q_conv_w, x, heads, rep);
        let k = self.key_side(&self.k_proj, &self.k_conv_w, x, heads, rep);
        let v = self.value_side(x);
        let g = self.decay_side(x, heads, rep);
        let (beta_k, beta_v) = self.strength_side(x, heads, rep);
        let gate = self.gate_side(x);
        Projection { q, k, v, g, beta_k, beta_v, gate }
    }

    fn value_side(&self, x: &Tensor<3>) -> (r: Tensor<4>)
        requires
            self.wf(),
            self.takes(*x),
        ensures
            self.valued(*x, r),
            r.shaped(
                x.dims@[0] as int,
                self.n_v_heads as int,
                x.dims@[1] as int,
                self.v_head_dim as int,
            ),
    {
        proof {
            self.lemma_groups();
            self.lemma_fits(x.dims@[0] as int, x.dims@[1] as int);
            Self::lemma_laid_out(*x, x.dims@[0] as int, x.dims@[1] as int, self.d_model as int);
        }
        let raw = self.v_proj.forward(x);
        let act = self.activate(&self.v_conv_w, &raw);
        split_heads(&act, self.n_v_heads, 1, self.v_head_dim)
    }

    fn decay_side(&self, x: &Tensor<3>, heads: usize, rep: usize) -> (r: Tensor<4>)
        requires
            self.wf(),
            self.takes(*x),
            heads == self.heads(),
            rep == self.group(),
        ensures
            self.log_decayed(*x, r),
            r.shaped(
                x.dims@[0] as int,
                self.heads(),
                x.dims@[1] as int,
                self.head_dim as int,
            ),
    {
        proof {
            self.lemma_groups();
            self.lemma_decay_head_dim();
            self.lemma_fits(x.dims@[0] as int, x.dims@[1] as int);
        }
        let alpha = self.decay.forward_ref(x);
        let g = ln4(&alpha);
        assert(logarithms(alpha, g));
        repeat_heads(&g, heads, rep)
    }

    fn strength_side(&self, x: &Tensor<3>, heads: usize, rep: usize) -> (r: (Tensor<4>, Tensor<4>))
        requires
            self.wf(),
            self.takes(*x),
            heads == self.heads(),
            rep == self.group(),
        ensures
            self.strengthened(*x, r.0, r.1),
            r.0.shaped(
                x.dims@[0] as int,
                self.heads(),
                x.dims@[1] as int,
                self.head_dim as int,
            ),
            r.1.shaped(
                x.dims@[0] as int,
                self.heads(),
                x.dims@[1] as int,
                self.v_head_dim as int,
            ),
    {
        proof {
            self.lemma_groups();
            self.lemma_fits(x.dims@[0] as int, x.dims@[1] as int);
            Self::lemma_laid_out(*x, x.dims@[0] as int, x.dims@[1] as int, self.d_model as int);
        }
        let logit = self.beta_proj.forward(x);
        let beta = sigmoid3(&logit);
        assert(sigmoids(logit, beta));
        let over_k = spread_strength(&beta, heads, rep, self.head_dim);
        let over_v = spread_strength(&beta, heads, rep, self.v_head_dim);
        (over_k, over_v)
    }

    fn gate_side(&self, x: &Tensor<3>) -> (r: Tensor<4>)
        requires
            self.wf(),
            self.takes(*x),
        ensures
            self.gated(*x, r),
            r.shaped(
                x.dims@[0] as int,
                self.n_v_heads as int,
                x.dims@[1] as int,
                self.v_head_dim as int,
            ),
    {
        proof {
            self.lemma_groups();
            self.lemma_fits(x.dims@[0] as int, x.dims@[1] as int);
        }
        let logit = self.gate_logit(x);
        let s = sigmoid3(&logit);
        assert(sigmoids(logit, s));
        split_heads(&s, self.n_v_heads, 1, self.v_head_dim)
    }

    fn gate_logit(&self, x: &Tensor<3>) -> (y: Tensor<3>)
        requires
            self.wf(),
            self.takes(*x),
        ensures
            self.gate_logits(*x, y),
            y.shaped(x.dims@[0] as int, x.dims@[1] as int, self.values()),
    {
        let ghost b = x.dims@[0] as int;
        let ghost t = x.dims@[1] as int;
        proof {
            self.lemma_groups();
            Self::lemma_laid_out(*x, b, t, self.d_model as int);
        }
        match self.gate {
            GateMode::FullRank => self.o_gate.as_ref().unwrap().forward(x),
            GateMode::LowRank => {
                let u = self.o_gate_up.as_ref().unwrap().forward(x);
                proof {
                    Self::lemma_laid_out(u, b, t, self.head_dim as int);
                }
                self.o_gate_down.as_ref().unwrap().forward(&u)
            },
        }
    }

    /// The decay has as many channels per head as the keys.
    pub(crate) proof fn lemma_decay_head_dim(&self)
        requires
            self.wf(),
        ensures
            self.decay.wf(),
            self.decay.head_dim() == self.head_dim,
            self.decay.a_log.dims@[0] == self.n_heads,
            self.decay.w_up.weight.dims@[0] == self.d_model,
    {
        vstd::arithmetic::div_mod::lemma_fundamental_div_mod_converse(
            self.keys(),
            self.n_heads as int,
            self.head_dim as int,
            0,
        );
    }

    /// `r` lists queries, keys, values, log-decays, the strengths over key and over value
    /// channels, and the gates that the layer may give for `x`.
    pub open spec fn lists(
        &self,
        x: Tensor<3>,
        r: (
            Tensor<4>,
            Tensor<4>,
            Tensor<4>,
            Tensor<4>,
            Tensor<4>,
            Tensor<4>,
            Tensor<4>,
        ),
    ) -> bool {
        let p = Projection {
            q: r.0,
            k: r.1,
            v: r.2,
            g: r.3,
            beta_k: r.4,
            beta_v: r.5,
            gate: r.6,
        };
        &&& self.projects(x, p)
        &&& self.projection_shaped(p, x.dims@[0] as int, x.dims@[1] as int)
    }

    /// Public form of [`Self::project`]: `(q, k, v, log_decay, beta_k, beta_v, gate)`.
    pub fn project_for_test(&self, x: Tensor<3>) -> (r: (
        Tensor<4>,
        Tensor<4>,
        Tensor<4>,
        Tensor<4>,
        Tensor<4>,
        Tensor<4>,
        Tensor<4>,
    ))
        requires
            self.wf(),
            self.takes(x),
        ensures
            self.projects(
                x,
                (Projection {
                    q: r.0,
                    k: r.1,
                    v: r.2,
                    g: r.3,
                    beta_k: r.4,
                    beta_v: r.5,
                    gate: r.6,
                }),
            ),
            self.projection_shaped(
                (Projection {
                    q: r.0,
                    k: r.1,
                    v: r.2,
                    g: r.3,
                    beta_k: r.4,
                    beta_v: r.5,
                    gate: r.6,
                }),
                x.dims@[0] as int,
                x.dims@[1] as int,
            ),
            self.lists(x, r),
    {
        let p = self.project(&x);
        (p.q, p.k, p.v, p.g, p.beta_k, p.beta_v, p.gate)
    }
}

} // verus!
