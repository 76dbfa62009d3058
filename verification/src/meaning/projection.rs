//! What the inputs of the recurrence stand for.
use crate::algebra::lemma_comm;
use crate::backend::{exp_gives, f32_add, f32_mul};
use crate::config::{DecayFn, GateMode};
use crate::conv::{conv_gives, conv_window, tap_sum};
use crate::decay::{activates, log_decay, log_decay_gives, KdaDecay, SOFTPLUS_BETA};
use crate::float::{law_one, narrowed};
use crate::layer::KdaModule;
use crate::linear::Linear;
use crate::meaning::formulas::{convolved, RealLayer};
use crate::meaning::{column, dot, row, Meaning};
use crate::ops::{heads_of, strengths_of};
use crate::projection::{logarithms, normalizes, repeats_heads, sigmoids, Projection};
use crate::recurrence::f32_arith;
use crate::tensor::{lemma_block, Tensor};
use vstd::prelude::*;

verus! {

impl Meaning {
    /// The decay parameters stand for those of `l`.
    pub open spec fn decay_means(&self, decay: KdaDecay, l: RealLayer) -> bool {
        &&& l.d == decay.w_up.weight.dims@[0]
        &&& l.rank == decay.w_up.weight.dims@[1]
        &&& l.heads == decay.a_log.dims@[0]
        &&& l.heads * l.dk == decay.w_down.weight.dims@[1]
        &&& l.decay_fn == decay.decay_fn
        &&& self.means2(decay.w_up.weight, l.up)
        &&& self.means2(decay.w_down.weight, l.down)
        &&& self.means1(decay.b_alpha, l.bias)
        &&& forall|h: int|
            0 <= h < l.heads ==> self.means(#[trigger] decay.a_log.at(h, 0), (l.a_log)(h))
        &&& self.means(narrowed(decay.g_min.bits), l.g_min)
    }

    /// The taps of a convolution stand for `w`.
    pub open spec fn taps_mean(&self, conv: Option<Tensor<2>>, w: spec_fn(int, int) -> real) -> bool {
        conv matches Some(c) ==> self.means2(c, w)
    }

    /// The weights of a map stand for `w`, where there is one.
    pub open spec fn weights_mean(&self, map: Option<Linear>, w: spec_fn(int, int) -> real) -> bool {
        map matches Some(m) ==> self.means2(m.weight, w)
    }

    /// The parameters of a layer stand for those of `l`; the norm of queries and keys is
    /// stabilized by the binary32 number next to `1e-6`.
    pub open spec fn layer_means(&self, layer: KdaModule, l: RealLayer) -> bool {
        &&& l.d == layer.d_model
        &&& l.heads == layer.n_heads
        &&& l.dk == layer.head_dim
        &&& l.v_heads == layer.n_v_heads
        &&& l.dv == layer.v_head_dim
        &&& l.conv == layer.use_short_conv
        &&& l.gate == layer.gate
        &&& self.means2(layer.q_proj.weight, l.wq)
        &&& self.means2(layer.k_proj.weight, l.wk)
        &&& self.means2(layer.v_proj.weight, l.wv)
        &&& self.taps_mean(layer.q_conv_w, l.cq)
        &&& self.taps_mean(layer.k_conv_w, l.ck)
        &&& self.taps_mean(layer.v_conv_w, l.cv)
        &&& self.means(narrowed(0x3eb0_c6f7_a0b5_ed8d), l.unit_eps)
        &&& self.decay_means(layer.decay, l)
        &&& self.means2(layer.beta_proj.weight, l.wb)
        &&& self.weights_mean(layer.o_gate, l.wg)
        &&& self.weights_mean(layer.o_gate_up, l.gate_up)
        &&& self.weights_mean(layer.o_gate_down, l.gate_down)
        &&& self.means1(layer.o_norm_w, l.norm)
        &&& self.means(narrowed(layer.norm_eps.bits), l.eps)
        &&& self.means2(layer.o_proj.weight, l.wo)
    }

    /// A linear map of a token stands for the product with the weights.
    pub proof fn law_map(
        &self,
        map: Linear,
        x: Tensor<3>,
        y: Tensor<3>,
        b: int,
        t: int,
        c: int,
        f: spec_fn(int) -> real,
        w: spec_fn(int, int) -> real,
    )
        requires
            self.computes(),
            map.maps(x, y),
            x.dims@[2] == map.weight.dims@[0],
            y.has(b, t, c),
            self.row_means(x.row(b, t), f),
            self.means2(map.weight, w),
        ensures
            self.means(y.at(b, t, c), dot(x.dims@[2] as nat, f, column(w, c))),
    {
        let col = map.weight.col(c);
        let g = column(w, c);
        assert forall|i: int| 0 <= i < col.len() implies self.means(#[trigger] col[i], g(i)) by {
            assert(self.means(map.weight.at(i, c), w(i, c)));
        }
        self.lemma_matmul(x.row(b, t), f, col, g, y.at(b, t, c));
    }

    /// [`Self::law_map`] on the channels of a whole tensor.
    proof fn lemma_mapped(
        &self,
        l: RealLayer,
        map: Linear,
        x: Tensor<3>,
        y: Tensor<3>,
        b: int,
        t: int,
        c: int,
        xr: spec_fn(int, int) -> real,
        w: spec_fn(int, int) -> real,
    )
        requires
            self.computes(),
            map.maps(x, y),
            x.dims@[2] == map.weight.dims@[0],
            x.dims@[2] == l.d,
            y.has(b, t, c),
            self.means3(x, b, xr),
            self.means2(map.weight, w),
        ensures
            self.means(y.at(b, t, c), l.mapped(w, xr, t, c)),
    {
        let f = row(xr, t);
        assert(self.row_means(x.row(b, t), f)) by {
            assert forall|i: int| 0 <= i < x.row(b, t).len() implies self.means(
                #[trigger] x.row(b, t)[i],
                f(i),
            ) by {
                assert(self.means(x.at(b, t, i), xr(t, i)));
            }
        }
        self.law_map(map, x, y, b, t, c, f, w);
    }

    /// A short convolution at a token stands for the sum of four products, of its taps with
    /// the inputs at that token and the three before it, passed through SiLU. The first
    /// token stands in for those before the sequence.
    pub proof fn law_convolution(
        &self,
        x: Tensor<3>,
        w: Tensor<2>,
        b: int,
        t: int,
        c: int,
        r: u32,
        f: spec_fn(int) -> real,
        taps: spec_fn(int) -> real,
    )
        requires
            self.computes(),
            conv_gives(conv_window(x, b, t, c), w.row(c), r),
            w.dims@[1] == 4,
            x.has(b, t, c),
            forall|u: int| 0 <= u < x.dims@[1] ==> self.means(#[trigger] x.at(b, u, c), f(u)),
            forall|n: int| 0 <= n < 4 ==> self.means(#[trigger] w.at(c, n), taps(n)),
        ensures
            self.means(r, self.rs.silu(convolved(f, taps, t))),
    {
        let s = conv_window(x, b, t, c);
        let v = w.row(c);
        let u0 = if t >= 3 {
            t - 3
        } else {
            0
        };
        let u1 = if t >= 2 {
            t - 2
        } else {
            0
        };
        let u2 = if t >= 1 {
            t - 1
        } else {
            0
        };
        assert(s[0] == x.at(b, u0, c) && s[1] == x.at(b, u1, c));
        assert(s[2] == x.at(b, u2, c) && s[3] == x.at(b, t, c));
        assert(v[0] == w.at(c, 0) && v[1] == w.at(c, 1));
        assert(v[2] == w.at(c, 2) && v[3] == w.at(c, 3));
        let a0 = f(u0) * taps(0);
        let a1 = f(u1) * taps(1);
        let a2 = f(u2) * taps(2);
        let a3 = f(t) * taps(3);
        self.lemma_constants();
        self.lemma_mul(s[0], f(u0), v[0], taps(0));
        self.lemma_mul(s[1], f(u1), v[1], taps(1));
        self.lemma_mul(s[2], f(u2), v[2], taps(2));
        self.lemma_mul(s[3], f(t), v[3], taps(3));
        let z0 = f32_add(0, f32_mul(s[0], v[0]));
        let z1 = f32_add(z0, f32_mul(s[1], v[1]));
        let z2 = f32_add(z1, f32_mul(s[2], v[2]));
        self.lemma_add(0, 0real, f32_mul(s[0], v[0]), a0);
        self.lemma_add(z0, 0real + a0, f32_mul(s[1], v[1]), a1);
        self.lemma_add(z1, 0real + a0 + a1, f32_mul(s[2], v[2]), a2);
        self.lemma_add(z2, 0real + a0 + a1 + a2, f32_mul(s[3], v[3]), a3);
        let z = convolved(f, taps, t);
        assert(0real + a0 + a1 + a2 + a3 == z);
        self.lemma_silu(tap_sum(s, v), z, r);
    }

    /// The activations of mapped tokens.
    proof fn lemma_active(
        &self,
        layer: KdaModule,
        l: RealLayer,
        conv: Option<Tensor<2>>,
        raw: Tensor<3>,
        act: Tensor<3>,
        b: int,
        t: int,
        c: int,
        xr: spec_fn(int, int) -> real,
        w: spec_fn(int, int) -> real,
        taps: spec_fn(int, int) -> real,
    )
        requires
            self.computes(),
            layer.activates(conv, raw, act),
            crate::layer::conv_shaped(conv, l.conv, raw.dims@[2] as int),
            self.taps_mean(conv, taps),
            raw.has(b, t, c),
            forall|u: int|
                0 <= u < raw.dims@[1] ==> self.means(
                    #[trigger] raw.at(b, u, c),
                    l.mapped(w, xr, u, c),
                ),
        ensures
            self.means(act.at(b, t, c), l.active(self.rs, w, taps, xr, t, c)),
    {
        let f = l.channel(w, xr, c);
        assert(act.has(b, t, c));
        match conv {
            Some(k) => {
                let v = row(taps, c);
                assert forall|u: int| 0 <= u < raw.dims@[1] implies self.means(
                    #[trigger] raw.at(b, u, c),
                    f(u),
                ) by {}
                assert forall|n: int| 0 <= n < 4 implies self.means(
                    #[trigger] k.at(c, n),
                    v(n),
                ) by {}
                assert(conv_gives(conv_window(raw, b, t, c), k.row(c), act.at(b, t, c)));
                self.law_convolution(raw, k, b, t, c, act.at(b, t, c), f, v);
            },
            None => {
                assert(act.at(b, t, c) == act.at(b, t, c));
                self.lemma_silu(raw.at(b, t, c), l.mapped(w, xr, t, c), act.at(b, t, c));
            },
        }
    }

    /// The head that a head takes its queries and keys from.
    proof fn lemma_key_head(layer: KdaModule, l: RealLayer, h: int)
        requires
            layer.wf(),
            l.heads == layer.n_heads,
            l.v_heads == layer.n_v_heads,
            0 <= h < layer.heads(),
        ensures
            h / layer.group() == l.key_head(h),
            0 <= l.key_head(h) < l.heads,
    {
        layer.lemma_groups();
        let g = layer.group();
        if layer.n_v_heads <= layer.n_heads {
            vstd::arithmetic::div_mod::lemma_div_by_self(layer.n_heads as int);
            vstd::arithmetic::div_mod::lemma_div_basics(h);
        }
        assert(0 <= h / g < layer.n_heads) by (nonlinear_arith)
            requires
                0 <= h < layer.n_heads * g,
                g > 0,
        ;
    }

    /// Queries or keys.
    proof fn lemma_keyed(
        &self,
        layer: KdaModule,
        l: RealLayer,
        proj: Linear,
        conv: Option<Tensor<2>>,
        x: Tensor<3>,
        r: Tensor<4>,
        b: int,
        h: int,
        t: int,
        i: int,
        xr: spec_fn(int, int) -> real,
        w: spec_fn(int, int) -> real,
        taps: spec_fn(int, int) -> real,
    )
        requires
            self.computes(),
            layer.wf(),
            self.layer_means(layer, l),
            proj.shaped(layer.d_model as int, layer.keys()),
            crate::layer::conv_shaped(conv, layer.use_short_conv, layer.keys()),
            self.means2(proj.weight, w),
            self.taps_mean(conv, taps),
            x.dims@[2] == layer.d_model,
            0 <= b < x.dims@[0],
            self.means3(x, b, xr),
            layer.keyed(proj, conv, x, r),
            r.has(b, h, t, i),
        ensures
            self.means(
                r.at(b, h, t, i),
                l.normed(self.rs, w, taps, xr, t, l.key_head(h) * l.dk + i),
            ),
    {
        let (raw, act, unit) = choose|raw: Tensor<3>, act: Tensor<3>, unit: Tensor<3>|
            {
                &&& #[trigger] proj.maps(x, raw)
                &&& #[trigger] layer.activates(conv, raw, act)
                &&& #[trigger] normalizes(act, unit)
                &&& heads_of(unit, layer.heads(), layer.group(), layer.head_dim as int, r)
            };
        Self::lemma_key_head(layer, l, h);
        let c = l.key_head(h) * l.dk + i;
        lemma_block(l.key_head(h), i, l.heads as int, l.dk as int);
        assert(r.at(b, h, t, i) == unit.at(b, t, c));
        let a = l.actives(self.rs, w, taps, xr, t);
        let s = act.row(b, t);
        assert forall|n: int| 0 <= n < s.len() implies self.means(#[trigger] s[n], a(n)) by {
            assert forall|u: int| 0 <= u < raw.dims@[1] implies self.means(
                #[trigger] raw.at(b, u, n),
                l.mapped(w, xr, u, n),
            ) by {
                self.lemma_mapped(l, proj, x, raw, b, u, n, xr, w);
            }
            self.lemma_active(layer, l, conv, raw, act, b, t, n, xr, w, taps);
        }
        let out = unit.row(b, t);
        self.lemma_l2(s, a, 0x3eb0_c6f7_a0b5_ed8d, l.unit_eps, out, c);
        assert(out[c] == unit.at(b, t, c));
    }

    /// The queries of a layer stand for its mapped, convolved and normalized input.
    pub proof fn law_queries(
        &self,
        layer: KdaModule,
        l: RealLayer,
        x: Tensor<3>,
        p: Projection,
        b: int,
        h: int,
        t: int,
        i: int,
        xr: spec_fn(int, int) -> real,
    )
        requires
            self.computes(),
            layer.wf(),
            self.layer_means(layer, l),
            x.dims@[2] == layer.d_model,
            0 <= b < x.dims@[0],
            self.means3(x, b, xr),
            layer.projects(x, p),
            p.q.has(b, h, t, i),
        ensures
            self.means(p.q.at(b, h, t, i), l.query(self.rs, xr, h, t, i)),
    {
        self.lemma_keyed(
            layer,
            l,
            layer.q_proj,
            layer.q_conv_w,
            x,
            p.q,
            b,
            h,
            t,
            i,
            xr,
            l.wq,
            l.cq,
        );
    }

    /// The keys of a layer stand for its mapped, convolved and normalized input.
    pub proof fn law_keys(
        &self,
        layer: KdaModule,
        l: RealLayer,
        x: Tensor<3>,
        p: Projection,
        b: int,
        h: int,
        t: int,
        i: int,
        xr: spec_fn(int, int) -> real,
    )
        requires
            self.computes(),
            layer.wf(),
            self.layer_means(layer, l),
            x.dims@[2] == layer.d_model,
            0 <= b < x.dims@[0],
            self.means3(x, b, xr),
            layer.projects(x, p),
            p.k.has(b, h, t, i),
        ensures
            self.means(p.k.at(b, h, t, i), l.key(self.rs, xr, h, t, i)),
    {
        self.lemma_keyed(
            layer,
            l,
            layer.k_proj,
            layer.k_conv_w,
            x,
            p.k,
            b,
            h,
            t,
            i,
            xr,
            l.wk,
            l.ck,
        );
    }

    /// The values of a layer stand for its mapped and convolved input.
    pub proof fn law_values(
        &self,
        layer: KdaModule,
        l: RealLayer,
        x: Tensor<3>,
        p: Projection,
        b: int,
        h: int,
        t: int,
        j: int,
        xr: spec_fn(int, int) -> real,
    )
        requires
            self.computes(),
            layer.wf(),
            self.layer_means(layer, l),
            x.dims@[2] == layer.d_model,
            0 <= b < x.dims@[0],
            self.means3(x, b, xr),
            layer.projects(x, p),
            p.v.has(b, h, t, j),
        ensures
            self.means(p.v.at(b, h, t, j), l.value(self.rs, xr, h, t, j)),
    {
        let (raw, act) = choose|raw: Tensor<3>, act: Tensor<3>|
            {
                &&& #[trigger] layer.v_proj.maps(x, raw)
                &&& #[trigger] layer.activates(layer.v_conv_w, raw, act)
                &&& heads_of(act, layer.n_v_heads as int, 1, layer.v_head_dim as int, p.v)
            };
        let n = h * l.dv + j;
        lemma_block(h, j, l.v_heads as int, l.dv as int);
        vstd::arithmetic::div_mod::lemma_div_basics(h);
        assert(p.v.at(b, h, t, j) == act.at(b, t, n));
        assert forall|u: int| 0 <= u < raw.dims@[1] implies self.means(
            #[trigger] raw.at(b, u, n),
            l.mapped(l.wv, xr, u, n),
        ) by {
            self.lemma_mapped(l, layer.v_proj, x, raw, b, u, n, xr, l.wv);
        }
        self.lemma_active(layer, l, layer.v_conv_w, raw, act, b, t, n, xr, l.wv, l.cv);
    }

    /// The write strengths of a layer, over the key and over the value channels, stand for
    /// `Sigmoid(W_beta x)` of the head.
    pub proof fn law_strengths(
        &self,
        layer: KdaModule,
        l: RealLayer,
        x: Tensor<3>,
        p: Projection,
        b: int,
        h: int,
        t: int,
        i: int,
        j: int,
        xr: spec_fn(int, int) -> real,
    )
        requires
            self.computes(),
            layer.wf(),
            self.layer_means(layer, l),
            x.dims@[2] == layer.d_model,
            0 <= b < x.dims@[0],
            self.means3(x, b, xr),
            layer.projects(x, p),
            p.beta_k.has(b, h, t, i),
            p.beta_v.has(b, h, t, j),
        ensures
            self.means(p.beta_k.at(b, h, t, i), l.strength(self.rs, xr, h, t)),
            self.means(p.beta_v.at(b, h, t, j), l.strength(self.rs, xr, h, t)),
    {
        let (logit, beta) = choose|logit: Tensor<3>, beta: Tensor<3>|
            {
                &&& #[trigger] layer.beta_proj.maps(x, logit)
                &&& #[trigger] sigmoids(logit, beta)
                &&& strengths_of(
                    beta,
                    layer.heads(),
                    layer.group(),
                    layer.head_dim as int,
                    p.beta_k,
                )
                &&& strengths_of(
                    beta,
                    layer.heads(),
                    layer.group(),
                    layer.v_head_dim as int,
                    p.beta_v,
                )
            };
        Self::lemma_key_head(layer, l, h);
        let n = l.key_head(h);
        self.lemma_mapped(l, layer.beta_proj, x, logit, b, t, n, xr, l.wb);
        assert(beta.has(b, t, n));
        self.lemma_sigmoid(logit.at(b, t, n), l.mapped(l.wb, xr, t, n), beta.at(b, t, n));
    }

    /// The output gates of a layer stand for `Sigmoid(W x)`, or `Sigmoid(W_down (W_up x))`
    /// at low rank.
    pub proof fn law_gates(
        &self,
        layer: KdaModule,
        l: RealLayer,
        x: Tensor<3>,
        p: Projection,
        b: int,
        h: int,
        t: int,
        j: int,
        xr: spec_fn(int, int) -> real,
    )
        requires
            self.computes(),
            layer.wf(),
            self.layer_means(layer, l),
            x.dims@[2] == layer.d_model,
            0 <= b < x.dims@[0],
            self.means3(x, b, xr),
            layer.projects(x, p),
            p.gate.has(b, h, t, j),
        ensures
            self.means(p.gate.at(b, h, t, j), l.opened(self.rs, xr, h, t, j)),
    {
        let (logit, s) = choose|logit: Tensor<3>, s: Tensor<3>|
            {
                &&& #[trigger] layer.gate_logits(x, logit)
                &&& #[trigger] sigmoids(logit, s)
                &&& heads_of(s, layer.n_v_heads as int, 1, layer.v_head_dim as int, p.gate)
            };
        let n = h * l.dv + j;
        lemma_block(h, j, l.v_heads as int, l.dv as int);
        vstd::arithmetic::div_mod::lemma_div_basics(h);
        assert(p.gate.at(b, h, t, j) == s.at(b, t, n));
        match layer.gate {
            GateMode::FullRank => {
                self.lemma_mapped(l, layer.o_gate.unwrap(), x, logit, b, t, n, xr, l.wg);
                self.lemma_sigmoid(logit.at(b, t, n), l.mapped(l.wg, xr, t, n), s.at(b, t, n));
            },
            GateMode::LowRank => {
                let up = layer.o_gate_up.unwrap();
                let down = layer.o_gate_down.unwrap();
                let u = choose|u: Tensor<3>| #[trigger] up.maps(x, u) && down.maps(u, logit);
                let f = l.gate_low(xr, t);
                let v = u.row(b, t);
                assert forall|r: int| 0 <= r < v.len() implies self.means(
                    #[trigger] v[r],
                    f(r),
                ) by {
                    self.lemma_mapped(l, up, x, u, b, t, r, xr, l.gate_up);
                }
                self.law_map(down, u, logit, b, t, n, f, l.gate_down);
                self.lemma_sigmoid(
                    logit.at(b, t, n),
                    dot(l.dk, f, column(l.gate_down, n)),
                    s.at(b, t, n),
                );
            },
        }
    }

    /// The decay of a channel stands for `exp(g)`, with the log-decay `g` of its low-rank
    /// logit: `-exp(A_h) * Softplus(z)` or `g_min * Sigmoid(exp(A_h) * z)`.
    pub proof fn law_decays(
        &self,
        decay: KdaDecay,
        l: RealLayer,
        x: Tensor<3>,
        alpha: Tensor<4>,
        b: int,
        t: int,
        h: int,
        i: int,
        xr: spec_fn(int, int) -> real,
    )
        requires
            self.computes(),
            decay.wf(),
            self.decay_means(decay, l),
            x.dims@[2] == l.d,
            0 <= b < x.dims@[0],
            self.means3(x, b, xr),
            decay.decays(x, alpha),
            alpha.has(b, t, h, i),
        ensures
            alpha.shaped(x.dims@[0] as int, x.dims@[1] as int, l.heads as int, l.dk as int),
            self.means(
                alpha.at(b, t, h, i),
                (self.rs.exp)(l.log_decay(self.rs, xr, h, t, i)),
            ),
    {
        assert(decay.w_down.weight.dims@[1] == l.dk * l.heads) by (nonlinear_arith)
            requires
                decay.w_down.weight.dims@[1] == l.heads * l.dk,
        ;
        vstd::arithmetic::div_mod::lemma_fundamental_div_mod_converse(
            decay.w_down.weight.dims@[1] as int,
            l.heads as int,
            l.dk as int,
            0,
        );
        let (u, z, a) = choose|u: Tensor<3>, z: Tensor<3>, a: Seq<u32>|
            {
                &&& #[trigger] decay.w_up.maps(x, u)
                &&& #[trigger] decay.w_down.maps(u, z)
                &&& #[trigger] decay.scales(a)
                &&& forall|b: int, t: int, h: int, c: int|
                    alpha.has(b, t, h, c) ==> decay.channel_decays(
                        z,
                        a,
                        b,
                        t,
                        h,
                        c,
                        #[trigger] alpha.at(b, t, h, c),
                    )
            };
        let n = h * l.dk + i;
        lemma_block(h, i, l.heads as int, l.dk as int);
        let f = l.low(xr, t);
        let v = u.row(b, t);
        assert forall|r: int| 0 <= r < v.len() implies self.means(#[trigger] v[r], f(r)) by {
            self.lemma_mapped(l, decay.w_up, x, u, b, t, r, xr, l.up);
        }
        self.law_map(decay.w_down, u, z, b, t, n, f, l.down);
        let zn = z.at(b, t, n);
        let logit = f32_add(zn, decay.b_alpha.at(n));
        let zr = l.logit(xr, t, n);
        assert(self.means(decay.b_alpha.at(n), (l.bias)(n)));
        self.lemma_add(zn, dot(l.rank, f, column(l.down, n)), decay.b_alpha.at(n), (l.bias)(n));
        let scale = (self.rs.exp)((l.a_log)(h));
        assert(exp_gives(decay.a_log.at(h, 0), a[h]));
        self.lemma_exp(decay.a_log.at(h, 0), (l.a_log)(h), a[h]);
        let floor = narrowed(decay.g_min.bits);
        assert(decay.channel_decays(z, a, b, t, h, i, alpha.at(b, t, h, i)));
        let g = choose|g: u32| #[trigger]
            log_decay_gives(decay.decay_fn, logit, a[h], floor, g) && exp_gives(
                g,
                alpha.at(b, t, h, i),
            );
        self.lemma_log_decay(decay.decay_fn, logit, zr, a[h], scale, floor, l.g_min, g);
        self.lemma_exp(g, l.log_decay(self.rs, xr, h, t, i), alpha.at(b, t, h, i));
    }

    proof fn lemma_log_decay(
        &self,
        decay_fn: DecayFn,
        z: u32,
        zr: real,
        a: u32,
        scale: real,
        floor: u32,
        g_min: real,
        g: u32,
    )
        requires
            self.computes(),
            self.means(z, zr),
            self.means(a, scale),
            self.means(floor, g_min),
            log_decay_gives(decay_fn, z, a, floor, g),
        ensures
            self.means(
                g,
                match decay_fn {
                    DecayFn::Softplus => -(scale * self.rs.softplus(zr)),
                    DecayFn::Sigmoid => g_min * self.rs.logistic(scale * zr),
                },
            ),
    {
        let act = choose|act: u32| #[trigger]
            activates(decay_fn, z, a, act) && g == log_decay(
                f32_arith(),
                decay_fn,
                a,
                act,
                floor,
            );
        match decay_fn {
            DecayFn::Softplus => {
                law_one();
                self.lemma_softplus(z, zr, SOFTPLUS_BETA, act);
                let y = self.rs.softplus(zr);
                self.lemma_mul(a, scale, act, y);
                self.lemma_neg(f32_mul(a, act), scale * y);
            },
            DecayFn::Sigmoid => {
                self.lemma_mul(z, zr, a, scale);
                lemma_comm(zr, scale);
                self.lemma_sigmoid(f32_mul(z, a), scale * zr, act);
                let y = self.rs.logistic(scale * zr);
                self.lemma_mul(act, y, floor, g_min);
                lemma_comm(y, g_min);
            },
        }
    }

    /// The log-decays of a layer stand for the logarithms of its decays, a key head's for
    /// every head that shares it.
    pub proof fn law_log_decays(
        &self,
        layer: KdaModule,
        l: RealLayer,
        x: Tensor<3>,
        p: Projection,
        b: int,
        h: int,
        t: int,
        i: int,
        xr: spec_fn(int, int) -> real,
    )
        requires
            self.computes(),
            layer.wf(),
            self.layer_means(layer, l),
            x.dims@[2] == layer.d_model,
            0 <= b < x.dims@[0],
            self.means3(x, b, xr),
            layer.projects(x, p),
            p.g.has(b, h, t, i),
        ensures
            self.means(
                p.g.at(b, h, t, i),
                (self.rs.ln)((self.rs.exp)(l.forgotten(self.rs, xr, h, t, i))),
            ),
    {
        let (alpha, g) = choose|alpha: Tensor<4>, g: Tensor<4>|
            {
                &&& #[trigger] layer.decay.decays(x, alpha)
                &&& #[trigger] logarithms(alpha, g)
                &&& repeats_heads(g, layer.heads(), layer.group(), p.g)
            };
        layer.lemma_decay_head_dim();
        Self::lemma_key_head(layer, l, h);
        let n = l.key_head(h);
        assert(alpha.has(b, t, n, i));
        self.law_decays(layer.decay, l, x, alpha, b, t, n, i, xr);
        assert(g.has(b, t, n, i));
        self.lemma_ln(
            alpha.at(b, t, n, i),
            (self.rs.exp)(l.log_decay(self.rs, xr, n, t, i)),
            g.at(b, t, n, i),
        );
    }

    /// A listed projection: queries, keys, values, log-decays, strengths over the key and
    /// over the value channels, and gates, in this order.
    pub proof fn law_listed(
        &self,
        layer: KdaModule,
        l: RealLayer,
        x: Tensor<3>,
        r: (
            Tensor<4>,
            Tensor<4>,
            Tensor<4>,
            Tensor<4>,
            Tensor<4>,
            Tensor<4>,
            Tensor<4>,
        ),
        b: int,
        h: int,
        t: int,
        i: int,
        j: int,
        xr: spec_fn(int, int) -> real,
    )
        requires
            self.computes(),
            layer.wf(),
            self.layer_means(layer, l),
            x.dims@[2] == layer.d_model,
            0 <= b < x.dims@[0],
            self.means3(x, b, xr),
            layer.lists(x, r),
            0 <= h < layer.n_heads || 0 <= h < layer.n_v_heads,
            0 <= t < x.dims@[1],
            0 <= i < layer.head_dim,
            0 <= j < layer.v_head_dim,
        ensures
            self.means(r.0.at(b, h, t, i), l.query(self.rs, xr, h, t, i)),
            self.means(r.1.at(b, h, t, i), l.key(self.rs, xr, h, t, i)),
            h < layer.n_v_heads ==> self.means(
                r.2.at(b, h, t, j),
                l.value(self.rs, xr, h, t, j),
            ),
            self.means(
                r.3.at(b, h, t, i),
                (self.rs.ln)((self.rs.exp)(l.forgotten(self.rs, xr, h, t, i))),
            ),
            self.means(r.4.at(b, h, t, i), l.strength(self.rs, xr, h, t)),
            self.means(r.5.at(b, h, t, j), l.strength(self.rs, xr, h, t)),
            h < layer.n_v_heads ==> self.means(
                r.6.at(b, h, t, j),
                l.opened(self.rs, xr, h, t, j),
            ),
    {
        let p = Projection {
            q: r.0,
            k: r.1,
            v: r.2,
            g: r.3,
            beta_k: r.4,
            beta_v: r.5,
            gate: r.6,
        };
        self.law_queries(layer, l, x, p, b, h, t, i, xr);
        self.law_keys(layer, l, x, p, b, h, t, i, xr);
        self.law_log_decays(layer, l, x, p, b, h, t, i, xr);
        self.law_strengths(layer, l, x, p, b, h, t, i, j, xr);
        if h < layer.n_v_heads {
            self.law_values(layer, l, x, p, b, h, t, j, xr);
            self.law_gates(layer, l, x, p, b, h, t, j, xr);
        }
    }
}

} // verus!
