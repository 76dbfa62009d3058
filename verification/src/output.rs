//! From the outputs of the heads to the output of the layer.
use crate::backend::{
    f32_add, f32_mul, f32_sqrt, mean_channels, mean_gives, squares,
};
use crate::calculus::{f32_calculus, Calculus};
use crate::float::{narrow, narrowed, num};
use crate::layer::KdaModule;
use crate::ops::{add4, constant, div4, merge_heads, mul4, sqrt4};
use crate::tensor::{build4, elem4, lemma_block, lemma_numel4, Tensor};
use vstd::prelude::*;

verus! {

/// A number divided by the root of the stabilized mean square `m`, gated and weighted.
pub open spec fn gated_norm<T>(c: Calculus<T>, a: T, m: T, eps: T, gate: T, weight: T) -> T {
    (c.ar.mul)((c.ar.mul)((c.div)(a, (c.sqrt)((c.ar.add)(m, eps))), gate), weight)
}

/// Repeats a last axis of extent one over `n` channels.
fn spread_last(x: &Tensor<4>, n: usize) -> (r: Tensor<4>)
    requires
        x.wf(),
        x.dims@[3] == 1,
        x.dims@[0] * x.dims@[1] * x.dims@[2] * n <= usize::MAX,
    ensures
        r.shaped(x.dims@[0] as int, x.dims@[1] as int, x.dims@[2] as int, n as int),
        forall|i: int, j: int, k: int, l: int|
            r.has(i, j, k, l) ==> #[trigger] r.at(i, j, k, l) == x.at(i, j, k, 0),
{
    let dims = [x.dims[0], x.dims[1], x.dims[2], n];
    proof {
        lemma_numel4(dims@);
    }
    let f = |i: usize, j: usize, k: usize, l: usize| -> (v: u32)
        requires
            x.wf(),
            x.has(i as int, j as int, k as int, 0),
        ensures
            num(v) == x.at(i as int, j as int, k as int, 0),
    {
        x.get(i, j, k, 0)
    };
    proof {
        reveal(elem4);
    }
    build4(dims, f)
}

/// Repeats a vector over three leading axes.
fn spread_weights(w: &Tensor<1>, a: usize, b: usize, c: usize) -> (r: Tensor<4>)
    requires
        w.wf(),
        a * b * c * w.dims@[0] <= usize::MAX,
    ensures
        r.shaped(a as int, b as int, c as int, w.dims@[0] as int),
        forall|i: int, j: int, k: int, l: int|
            r.has(i, j, k, l) ==> #[trigger] r.at(i, j, k, l) == w.at(l),
{
    let dims = [a, b, c, w.dims[0]];
    proof {
        lemma_numel4(dims@);
    }
    let f = |i: usize, j: usize, k: usize, l: usize| -> (v: u32)
        requires
            w.wf(),
            l < w.dims@[0],
        ensures
            num(v) == w.at(l as int),
    {
        w.get(l)
    };
    proof {
        reveal(elem4);
    }
    build4(dims, f)
}

impl KdaModule {
    /// The channels of head `h` at token `t` of `merged` are the RMS-normalized, gated
    /// and weighted output of that head.
    pub open spec fn head_outputs(
        &self,
        o: Tensor<4>,
        gate: Tensor<4>,
        merged: Tensor<3>,
        b: int,
        h: int,
        t: int,
    ) -> bool {
        exists|m: u32|
            {
                &&& #[trigger] mean_gives(squares(o.row(b, h, t)), m)
                &&& forall|c: int|
                    0 <= c < self.v_head_dim ==> #[trigger] merged.at(
                        b,
                        t,
                        h * self.v_head_dim + c,
                    ) == gated_norm(
                        f32_calculus(),
                        o.at(b, h, t, c),
                        m,
                        narrowed(self.norm_eps.bits),
                        gate.at(b, h, t, c),
                        self.o_norm_w.at(c),
                    )
            }
    }

    /// `merged` `[B, T, HV * V]` holds the normalized and gated outputs of all heads.
    pub open spec fn merges(&self, o: Tensor<4>, gate: Tensor<4>, merged: Tensor<3>) -> bool {
        &&& merged.shaped(o.dims@[0] as int, o.dims@[2] as int, self.values())
        &&& forall|b: int, h: int, t: int|
            0 <= b < o.dims@[0] && 0 <= h < o.dims@[1] && 0 <= t < o.dims@[2]
                ==> #[trigger] self.head_outputs(o, gate, merged, b, h, t)
    }

    /// `y` is an output that the layer may give for the outputs `o` of the heads.
    pub open spec fn outputs(&self, o: Tensor<4>, gate: Tensor<4>, y: Tensor<3>) -> bool {
        exists|merged: Tensor<3>| #[trigger]
            self.merges(o, gate, merged) && self.o_proj.maps(merged, y)
    }

    /// RMS norm, gate and output map of the outputs `[B, HV, T, V]` of the heads.
    pub fn output(&self, o: &Tensor<4>, gate: &Tensor<4>) -> (y: Tensor<3>)
        requires
            self.wf(),
            o.wf(),
            gate.wf(),
            gate.dims@ =~= o.dims@,
            o.dims@[1] == self.n_v_heads,
            o.dims@[2] > 0,
            o.dims@[3] == self.v_head_dim,
            self.fits(o.dims@[0] as int, o.dims@[2] as int),
        ensures
            self.outputs(*o, *gate, y),
            y.shaped(o.dims@[0] as int, o.dims@[2] as int, self.d_model as int),
    {
        let ghost b = o.dims@[0] as int;
        let ghost t = o.dims@[2] as int;
        proof {
            self.lemma_groups();
            self.lemma_fits(b, t);
        }
        let squared = mul4(o, o);
        proof {
            Self::lemma_laid_out4(
                squared,
                b,
                self.n_v_heads as int,
                t,
                self.v_head_dim as int,
            );
        }
        let mean = mean_channels(&squared);
        proof {
            assert(o.bits.len() <= usize::MAX);
            assert(mean.bits.len() <= usize::MAX);
            lemma_numel4(o.dims@);
            lemma_numel4(mean.dims@);
        }
        let eps = constant(mean.dims, narrow(self.norm_eps).bits);
        let rms = sqrt4(&add4(&mean, &eps));
        let normed = div4(o, &spread_last(&rms, self.v_head_dim));
        let gated = mul4(&normed, gate);
        let weights = spread_weights(&self.o_norm_w, o.dims[0], o.dims[1], o.dims[2]);
        let weighted = mul4(&gated, &weights);
        let merged = merge_heads(&weighted);
        proof {
            assert forall|b: int, h: int, t: int|
                0 <= b < o.dims@[0] && 0 <= h < o.dims@[1] && 0 <= t < o.dims@[2] implies #[trigger]
            self.head_outputs(*o, *gate, merged, b, h, t) by {
                let m = mean.at(b, h, t, 0);
                assert(squared.row(b, h, t) =~= squares(o.row(b, h, t)));
                assert(mean_gives(squares(o.row(b, h, t)), m));
                assert forall|c: int| 0 <= c < self.v_head_dim implies #[trigger] merged.at(
                    b,
                    t,
                    h * self.v_head_dim + c,
                ) == gated_norm(
                    f32_calculus(),
                    o.at(b, h, t, c),
                    m,
                    narrowed(self.norm_eps.bits),
                    gate.at(b, h, t, c),
                    self.o_norm_w.at(c),
                ) by {
                    lemma_block(h, c, self.n_v_heads as int, self.v_head_dim as int);
                    assert(weighted.at(b, h, t, c) == f32_mul(
                        gated.at(b, h, t, c),
                        weights.at(b, h, t, c),
                    ));
                    assert(gated.at(b, h, t, c) == f32_mul(
                        normed.at(b, h, t, c),
                        gate.at(b, h, t, c),
                    ));
                    assert(rms.at(b, h, t, 0) == f32_sqrt(
                        f32_add(m, narrowed(self.norm_eps.bits)),
                    ));
                }
            }
            assert(self.merges(*o, *gate, merged));
            Self::lemma_laid_out(merged, b, t, self.values());
        }
        self.o_proj.forward(&merged)
    }
}

} // verus!
