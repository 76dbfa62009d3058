//! The data-dependent decay of every key channel.
use crate::backend::{exp_gives, exp_of, f32_add, f32_mul, sigmoid_gives, softplus_gives};
use crate::config::DecayFn;
use crate::float::{narrow, narrowed, num, F64};
use crate::linear::{drawn, Linear};
use crate::ops::{add4, constant, exp4, mul4, neg4, repeated, sigmoid4, softplus4, split_channels};
use crate::recurrence::{f32_arith, Arith};
use crate::tensor::{
    build4, elem2, elem4, lemma_block, lemma_numel1, lemma_numel2, lemma_numel4, lemma_plain3,
    lemma_room3, matrix_fits, nonempty, Tensor,
};
use vstd::prelude::*;

verus! {

/// Sharpness of the softplus, `1`, as binary64 bits.
pub const SOFTPLUS_BETA: u64 = 0x3ff0_0000_0000_0000;

/// Channel-wise decay from a low-rank logit:
/// `z = W_down (W_up x) + b_alpha`, mapped to a log-decay `g` by [`DecayFn`] with a
/// scale `exp(A_h)` per head, and `alpha = exp(g)`.
#[derive(Debug)]
pub struct KdaDecay {
    pub w_up: Linear,
    pub w_down: Linear,
    pub b_alpha: Tensor<1>,
    /// Log-scale `A_h` of every head, `[n_heads, 1]`.
    pub a_log: Tensor<2>,
    pub g_min: F64,
    pub decay_fn: DecayFn,
}

/// Log-decay from the scale of the head and the activation of the logit.
pub open spec fn log_decay<T>(ar: Arith<T>, decay_fn: DecayFn, scale: T, act: T, g_min: T) -> T {
    match decay_fn {
        DecayFn::Softplus => (ar.neg)((ar.mul)(scale, act)),
        DecayFn::Sigmoid => (ar.mul)(act, g_min),
    }
}

/// `act` is an activation that a logit `z` may have in a head with this scale.
pub open spec fn activates(decay_fn: DecayFn, z: u32, scale: u32, act: u32) -> bool {
    match decay_fn {
        DecayFn::Softplus => softplus_gives(z, SOFTPLUS_BETA, act),
        DecayFn::Sigmoid => sigmoid_gives(f32_mul(z, scale), act),
    }
}

/// `g` is a log-decay that a logit `z` may have in a head with this scale.
pub open spec fn log_decay_gives(decay_fn: DecayFn, z: u32, scale: u32, g_min: u32, g: u32) -> bool {
    exists|act: u32| #[trigger]
        activates(decay_fn, z, scale, act) && g == log_decay(
            f32_arith(),
            decay_fn,
            scale,
            act,
            g_min,
        )
}

impl KdaDecay {
    /// Decay of `n_heads` heads with `head_dim` channels each, from `d_model` input
    /// channels by way of `rank`.
    pub open spec fn shaped(&self, d_model: int, n_heads: int, head_dim: int, rank: int) -> bool {
        &&& self.w_up.shaped(d_model, rank)
        &&& self.w_down.shaped(rank, n_heads * head_dim)
        &&& self.b_alpha.shaped(n_heads * head_dim)
        &&& self.a_log.shaped(n_heads, 1)
    }

    /// Channels per head.
    pub open spec fn head_dim(&self) -> int {
        self.w_down.weight.dims@[1] as int / self.a_log.dims@[0] as int
    }

    /// Parameters of matching extents, none of them empty.
    pub open spec fn wf(&self) -> bool {
        let h = self.a_log.dims@[0] as int;
        let c = self.head_dim();
        &&& self.shaped(self.w_up.weight.dims@[0] as int, h, c, self.w_up.weight.dims@[1] as int)
        &&& self.w_up.weight.dims@[0] > 0
        &&& self.w_up.weight.dims@[1] > 0
        &&& h > 0
        &&& c > 0
    }

    /// The arrays for these numbers of batches and tokens can be held in memory.
    pub open spec fn fits(&self, batch: int, tokens: int) -> bool {
        &&& nonempty(batch) * tokens * self.w_up.weight.dims@[0] <= isize::MAX
        &&& nonempty(batch) * tokens * self.w_up.weight.dims@[1] <= isize::MAX
        &&& nonempty(batch) * tokens * self.w_down.weight.dims@[1] <= isize::MAX
    }

    /// `a` holds a scale `exp(A_h)` for every head.
    pub open spec fn scales(&self, a: Seq<u32>) -> bool {
        &&& a.len() == self.a_log.dims@[0]
        &&& forall|h: int| 0 <= h < a.len() ==> exp_gives(self.a_log.at(h, 0), #[trigger] a[h])
    }

    /// `alpha` is a decay that channel `c` of head `h` may have, given the low-rank
    /// product `z` and the scales `a`.
    pub open spec fn channel_decays(
        &self,
        z: Tensor<3>,
        a: Seq<u32>,
        b: int,
        t: int,
        h: int,
        c: int,
        alpha: u32,
    ) -> bool {
        let n = h * self.head_dim() + c;
        let logit = f32_add(z.at(b, t, n), self.b_alpha.at(n));
        exists|g: u32| #[trigger]
            log_decay_gives(self.decay_fn, logit, a[h], narrowed(self.g_min.bits), g) && exp_gives(
                g,
                alpha,
            )
    }

    /// `alpha` `[B, T, H, HD]` holds decays that the layer may give for `x`.
    pub open spec fn decays(&self, x: Tensor<3>, alpha: Tensor<4>) -> bool {
        &&& alpha.shaped(
            x.dims@[0] as int,
            x.dims@[1] as int,
            self.a_log.dims@[0] as int,
            self.head_dim(),
        )
        &&& exists|u: Tensor<3>, z: Tensor<3>, a: Seq<u32>|
            {
                &&& #[trigger] self.w_up.maps(x, u)
                &&& #[trigger] self.w_down.maps(u, z)
                &&& #[trigger] self.scales(a)
                &&& forall|b: int, t: int, h: int, c: int|
                    alpha.has(b, t, h, c) ==> self.channel_decays(
                        z,
                        a,
                        b,
                        t,
                        h,
                        c,
                        #[trigger] alpha.at(b, t, h, c),
                    )
            }
    }

    /// Fresh parameters of these extents, with this floor and mapping.
    pub open spec fn built(
        &self,
        d_model: int,
        n_heads: int,
        head_dim: int,
        rank: int,
        g_min: F64,
        decay_fn: DecayFn,
    ) -> bool {
        &&& self.shaped(d_model, n_heads, head_dim, rank)
        &&& drawn(self.w_up.weight)
        &&& drawn(self.w_down.weight)
        &&& forall|i: int|
            0 <= i < n_heads * head_dim ==> #[trigger] self.b_alpha.at(i) == 0
        &&& forall|h: int| 0 <= h < n_heads ==> #[trigger] self.a_log.at(h, 0) == 0
        &&& self.g_min == g_min
        &&& self.decay_fn == decay_fn
    }

    /// Fresh parameters: drawn low-rank weights, no bias, scales of one.
    pub fn new(
        d_model: usize,
        n_heads: usize,
        head_dim: usize,
        rank: usize,
        g_min: F64,
        decay_fn: DecayFn,
    ) -> (r: Self)
        requires
            n_heads * head_dim <= usize::MAX,
            matrix_fits(d_model as int, rank as int),
            matrix_fits(rank as int, n_heads * head_dim),
        ensures
            r.shaped(d_model as int, n_heads as int, head_dim as int, rank as int),
            drawn(r.w_up.weight),
            drawn(r.w_down.weight),
            forall|i: int| 0 <= i < n_heads * head_dim ==> #[trigger] r.b_alpha.at(i) == 0,
            forall|h: int| 0 <= h < n_heads ==> #[trigger] r.a_log.at(h, 0) == 0,
            r.g_min == g_min,
            r.decay_fn == decay_fn,
            r.built(
                d_model as int,
                n_heads as int,
                head_dim as int,
                rank as int,
                g_min,
                decay_fn,
            ),
    {
        let n = n_heads * head_dim;
        let b_alpha = Tensor { dims: [n], bits: repeated(n, 0) };
        let a_log = Tensor { dims: [n_heads, 1], bits: repeated(n_heads, 0) };
        proof {
            reveal(elem2);
            lemma_numel1(b_alpha.dims@);
            lemma_numel2(a_log.dims@);
            assert(n_heads * 1 == n_heads);
        }
        KdaDecay {
            w_up: Linear::new(d_model, rank),
            w_down: Linear::new(rank, n),
            b_alpha,
            a_log,
            g_min,
            decay_fn,
        }
    }

    /// The scales `exp(A_h)`.
    fn head_scales(&self) -> (a: Vec<u32>)
        requires
            self.a_log.wf(),
            self.a_log.dims@[1] == 1,
        ensures
            self.scales(a@.map_values(|v: u32| num(v))),
    {
        proof {
            reveal(elem2);
            lemma_numel2(self.a_log.dims@);
        }
        exp_of(&self.a_log.bits)
    }

    /// The bias in the layout of the logits.
    fn spread_bias(&self, b: usize, t: usize, h: usize, c: usize) -> (r: Tensor<4>)
        requires
            self.b_alpha.shaped(h * c),
            b * t * h * c <= usize::MAX,
            h * c <= usize::MAX,
        ensures
            r.shaped(b as int, t as int, h as int, c as int),
            forall|i: int, j: int, k: int, l: int|
                r.has(i, j, k, l) ==> #[trigger] r.at(i, j, k, l) == self.b_alpha.at(k * c + l),
    {
        let dims = [b, t, h, c];
        proof {
            lemma_numel4(dims@);
        }
        let f = |i: usize, j: usize, k: usize, l: usize| -> (v: u32)
            requires
                self.b_alpha.shaped(h * c),
                h * c <= usize::MAX,
                k < h,
                l < c,
            ensures
                num(v) == self.b_alpha.at(k * c + l),
        {
            proof {
                lemma_block(k as int, l as int, h as int, c as int);
                assert(0 <= k * c) by (nonlinear_arith)
                    requires
                        0 <= k,
                        0 <= c,
                ;
            }
            self.b_alpha.get(k * c + l)
        };
        proof {
            reveal(elem4);
        }
        build4(dims, f)
    }

    /// The scales in the layout of the logits.
    fn spread_scales(a: &Vec<u32>, b: usize, t: usize, c: usize) -> (r: Tensor<4>)
        requires
            b * t * a@.len() * c <= usize::MAX,
        ensures
            r.shaped(b as int, t as int, a@.len() as int, c as int),
            forall|i: int, j: int, k: int, l: int|
                r.has(i, j, k, l) ==> #[trigger] r.at(i, j, k, l) == num(a@[k]),
    {
        let dims = [b, t, a.len(), c];
        proof {
            lemma_numel4(dims@);
        }
        let f = |i: usize, j: usize, k: usize, l: usize| -> (v: u32)
            requires
                k < a@.len(),
            ensures
                num(v) == num(a@[k as int]),
        {
            a[k]
        };
        proof {
            reveal(elem4);
        }
        build4(dims, f)
    }

    /// Log-decays from the logits and the scales of the heads.
    fn log_decays(&self, z: &Tensor<4>, a: &Tensor<4>) -> (g: Tensor<4>)
        requires
            z.wf(),
            a.wf(),
            a.dims@ =~= z.dims@,
        ensures
            g.wf(),
            g.dims@ == z.dims@,
            forall|i: int, j: int, k: int, l: int|
                g.has(i, j, k, l) ==> log_decay_gives(
                    self.decay_fn,
                    z.at(i, j, k, l),
                    a.at(i, j, k, l),
                    narrowed(self.g_min.bits),
                    #[trigger] g.at(i, j, k, l),
                ),
    {
        let (act, g) = match self.decay_fn {
            DecayFn::Softplus => {
                let act = softplus4(z, F64 { bits: SOFTPLUS_BETA });
                let g = neg4(&mul4(a, &act));
                (act, g)
            },
            DecayFn::Sigmoid => {
                let act = sigmoid4(&mul4(z, a));
                assert(z.bits.len() <= usize::MAX);
                let floor = constant(z.dims, narrow(self.g_min).bits);
                let g = mul4(&act, &floor);
                (act, g)
            },
        };
        assert forall|i: int, j: int, k: int, l: int| g.has(i, j, k, l) implies log_decay_gives(
            self.decay_fn,
            z.at(i, j, k, l),
            a.at(i, j, k, l),
            narrowed(self.g_min.bits),
            #[trigger] g.at(i, j, k, l),
        ) by {
            let v = act.at(i, j, k, l);
            assert(activates(self.decay_fn, z.at(i, j, k, l), a.at(i, j, k, l), v));
        }
        g
    }

    /// Decays `[B, T, H, HD]` for hidden states `x` `[B, T, D]`.
    pub fn forward(&self, x: Tensor<3>) -> (alpha: Tensor<4>)
        requires
            self.wf(),
            x.wf(),
            x.dims@[1] > 0,
            x.dims@[2] == self.w_up.weight.dims@[0],
            self.fits(x.dims@[0] as int, x.dims@[1] as int),
        ensures
            self.decays(x, alpha),
    {
        self.forward_ref(&x)
    }

    /// [`Self::forward`] on borrowed hidden states.
    pub(crate) fn forward_ref(&self, x: &Tensor<3>) -> (alpha: Tensor<4>)
        requires
            self.wf(),
            x.wf(),
            x.dims@[1] > 0,
            x.dims@[2] == self.w_up.weight.dims@[0],
            self.fits(x.dims@[0] as int, x.dims@[1] as int),
        ensures
            self.decays(*x, alpha),
    {
        proof {
            let d = x.dims@;
            lemma_room3(d);
            lemma_room3(seq![d[0], d[1], self.w_up.weight.dims@[1]]);
            lemma_plain3(d[0] as int, d[1] as int, self.w_down.weight.dims@[1] as int);
        }
        let u = self.w_up.forward(x);
        assert(u.dims@ =~= seq![x.dims@[0], x.dims@[1], self.w_up.weight.dims@[1]]);
        let z = self.w_down.forward(&u);
        let n_heads = self.a_log.dims[0];
        let channels = self.w_down.weight.dims[1];
        let head_dim = channels / n_heads;
        let a = self.head_scales();
        let ghost sc = a@.map_values(|v: u32| num(v));
        proof {
            let d = x.dims@;
            assert(d[0] * d[1] * (n_heads * head_dim) == d[0] * d[1] * n_heads * head_dim)
                by (nonlinear_arith);
        }
        let logits = add4(
            &split_channels(z.clone(), n_heads, head_dim),
            &self.spread_bias(x.dims[0], x.dims[1], n_heads, head_dim),
        );
        let scales = Self::spread_scales(&a, x.dims[0], x.dims[1], head_dim);
        let g = self.log_decays(&logits, &scales);
        let alpha = exp4(&g);
        proof {
            assert forall|b: int, t: int, h: int, k: int|
                alpha.has(b, t, h, k) implies self.channel_decays(
                z,
                sc,
                b,
                t,
                h,
                k,
                #[trigger] alpha.at(b, t, h, k),
            ) by {
                let n = h * self.head_dim() + k;
                assert(logits.at(b, t, h, k) == f32_add(z.at(b, t, n), self.b_alpha.at(n)));
                assert(scales.at(b, t, h, k) == sc[h]);
                assert(log_decay_gives(
                    self.decay_fn,
                    logits.at(b, t, h, k),
                    sc[h],
                    narrowed(self.g_min.bits),
                    g.at(b, t, h, k),
                ));
            }
            assert(self.w_up.maps(*x, u));
            assert(self.w_down.maps(u, z));
            assert(self.scales(sc));
        }
        alpha
    }
}

} // verus!
