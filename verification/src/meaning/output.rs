//! What the output of the layer stands for.
use crate::algebra::lemma_total_same;
use crate::backend::{f32_add, f32_div, f32_mul, f32_sqrt, mean_gives, squares};
use crate::calculus::f32_calculus;
use crate::float::narrowed;
use crate::layer::KdaModule;
use crate::meaning::formulas::RealLayer;
use crate::meaning::{row, Meaning};
use crate::output::gated_norm;
use crate::tensor::Tensor;
use vstd::prelude::*;

verus! {

impl Meaning {
    /// The channels of one head, normalized and gated.
    proof fn lemma_head(
        &self,
        layer: KdaModule,
        l: RealLayer,
        o: Tensor<4>,
        gate: Tensor<4>,
        merged: Tensor<3>,
        b: int,
        h: int,
        t: int,
        j: int,
        o_r: spec_fn(int) -> real,
        g_r: spec_fn(int) -> real,
    )
        requires
            self.computes(),
            self.layer_means(layer, l),
            layer.wf(),
            layer.head_outputs(o, gate, merged, b, h, t),
            o.dims@[3] == layer.v_head_dim,
            0 <= j < layer.v_head_dim,
            forall|c: int|
                0 <= c < layer.v_head_dim ==> self.means(#[trigger] o.at(b, h, t, c), o_r(c)),
            self.means(gate.at(b, h, t, j), g_r(j)),
        ensures
            self.means(
                merged.at(b, t, h * layer.v_head_dim + j),
                l.finished(self.rs, o_r, g_r, j),
            ),
    {
        let s = o.row(b, h, t);
        let eps = narrowed(layer.norm_eps.bits);
        let m = choose|m: u32|
            {
                &&& #[trigger] mean_gives(squares(s), m)
                &&& forall|c: int|
                    0 <= c < layer.v_head_dim ==> #[trigger] merged.at(
                        b,
                        t,
                        h * layer.v_head_dim + c,
                    ) == gated_norm(
                        f32_calculus(),
                        o.at(b, h, t, c),
                        m,
                        eps,
                        gate.at(b, h, t, c),
                        layer.o_norm_w.at(c),
                    )
            };
        assert(self.row_means(s, o_r));
        self.lemma_squares(s, o_r);
        let sq = |i: int| o_r(i) * o_r(i);
        self.lemma_mean(squares(s), sq, m);
        lemma_total_same(l.dv, sq, |i: int| o_r(i) * o_r(i));
        let pw = l.power(o_r);
        assert(self.means(m, pw));
        self.lemma_add(m, pw, eps, l.eps);
        self.lemma_sqrt(f32_add(m, eps), pw + l.eps);
        let x = o.at(b, h, t, j);
        let root = f32_sqrt(f32_add(m, eps));
        let root_r = (self.rs.sqrt)(pw + l.eps);
        self.lemma_div(x, o_r(j), root, root_r);
        let y = f32_div(x, root);
        self.lemma_mul(y, o_r(j) / root_r, gate.at(b, h, t, j), g_r(j));
        assert(self.means(layer.o_norm_w.at(j), (l.norm)(j)));
        self.lemma_mul(
            f32_mul(y, gate.at(b, h, t, j)),
            o_r(j) / root_r * g_r(j),
            layer.o_norm_w.at(j),
            (l.norm)(j),
        );
    }

    /// The output of a layer stands for `W_o (w * gate * o / sqrt(mean(o^2) + eps))`, the
    /// mean taken over the channels of a head and the heads set one after the other.
    pub proof fn law_output(
        &self,
        layer: KdaModule,
        l: RealLayer,
        o: Tensor<4>,
        gate: Tensor<4>,
        y: Tensor<3>,
        b: int,
        t: int,
        e: int,
        o_r: spec_fn(int, int) -> real,
        g_r: spec_fn(int, int) -> real,
    )
        requires
            self.computes(),
            self.layer_means(layer, l),
            layer.wf(),
            layer.outputs(o, gate, y),
            o.dims@[1] == layer.n_v_heads,
            o.dims@[3] == layer.v_head_dim,
            0 <= b < o.dims@[0],
            0 <= t < o.dims@[2],
            y.has(b, t, e),
            forall|h: int, j: int|
                0 <= h < layer.n_v_heads && 0 <= j < layer.v_head_dim ==> self.means(
                    #[trigger] o.at(b, h, t, j),
                    o_r(h, j),
                ),
            forall|h: int, j: int|
                0 <= h < layer.n_v_heads && 0 <= j < layer.v_head_dim ==> self.means(
                    #[trigger] gate.at(b, h, t, j),
                    g_r(h, j),
                ),
        ensures
            self.means(y.at(b, t, e), l.merged(self.rs, o_r, g_r, e)),
    {
        let merged = choose|merged: Tensor<3>| #[trigger]
            layer.merges(o, gate, merged) && layer.o_proj.maps(merged, y);
        let f = l.joined(self.rs, o_r, g_r);
        let s = merged.row(b, t);
        let dv = layer.v_head_dim as int;
        assert forall|n: int| 0 <= n < s.len() implies self.means(#[trigger] s[n], f(n)) by {
            let h = n / dv;
            let j = n % dv;
            vstd::arithmetic::div_mod::lemma_fundamental_div_mod(n, dv);
            assert(0 <= h < layer.n_v_heads) by (nonlinear_arith)
                requires
                    0 <= n < layer.n_v_heads * dv,
                    h == n / dv,
                    dv > 0,
            ;
            assert(dv * h == h * dv) by (nonlinear_arith);
            assert(layer.head_outputs(o, gate, merged, b, h, t));
            self.lemma_head(layer, l, o, gate, merged, b, h, t, j, row(o_r, h), row(g_r, h));
            assert(s[n] == merged.at(b, t, h * dv + j));
        }
        self.law_map(layer.o_proj, merged, y, b, t, e, f, l.wo);
    }
}

} // verus!
