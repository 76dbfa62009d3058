//! On a machine whose kernels give one result for the same operands, the layer does too:
//! which parts of the input a result depends on.
//!
//! Rounding may differ between machines and builds, so that one result is not a fact about
//! the kernels; it is what the laws here suppose.
use crate::backend::{
    exp_gives, f32_add, f32_mul, l2_gives, ln_gives, matmul_gives, mean_gives, sigmoid_gives,
    silu_gives, softplus_gives, sum_gives,
};
use crate::config::{DecayFn, GateMode};
use crate::conv::{conv_gives, conv_window, tap_sum, tap_token};
use crate::decay::{activates, log_decay, log_decay_gives, KdaDecay, SOFTPLUS_BETA};
use crate::decode::{reads, token_steps, traces};
use crate::float::narrowed;
use crate::laws::law_softplus_ignores_floor;
use crate::layer::KdaModule;
use crate::linear::Linear;
use crate::ops::heads_of;
use crate::projection::{normalizes, Projection, L2_EPS};
use crate::recurrence::f32_arith;
use crate::step::{column_steps, column_writes};
use crate::streaming::{
    head_row, inputs_at, lemma_maps_row, maps_row, sigmoid_row, silu_row, token_log_decay,
    token_products, token_reads, tokens_of, TokenInputs,
};
use crate::tensor::{lemma_block, Tensor};
use vstd::prelude::*;

verus! {

/// The kernels give at most one result for the same operands.
pub open spec fn settled() -> bool {
    &&& forall|x: u32, r: u32, s: u32|
        #[trigger] exp_gives(x, r) && #[trigger] exp_gives(x, s) ==> r == s
    &&& forall|x: u32, r: u32, s: u32|
        #[trigger] ln_gives(x, r) && #[trigger] ln_gives(x, s) ==> r == s
    &&& forall|x: Seq<u32>, r: u32, s: u32|
        #[trigger] sum_gives(x, r) && #[trigger] sum_gives(x, s) ==> r == s
    &&& forall|x: Seq<u32>, r: u32, s: u32|
        #[trigger] mean_gives(x, r) && #[trigger] mean_gives(x, s) ==> r == s
    &&& forall|x: Seq<u32>, y: Seq<u32>, r: u32, s: u32|
        #[trigger] matmul_gives(x, y, r) && #[trigger] matmul_gives(x, y, s) ==> r == s
}

/// Two functions of head and channel have the same values in these ranges.
pub open spec fn same(
    f: spec_fn(int, int) -> u32,
    g: spec_fn(int, int) -> u32,
    heads: int,
    channels: int,
) -> bool {
    forall|h: int, c: int|
        0 <= h < heads && 0 <= c < channels ==> #[trigger] f(h, c) == #[trigger] g(h, c)
}

/// Two states hold the same numbers for batches `b` and `d`.
pub open spec fn same_state(s: Tensor<4>, b: int, r: Tensor<4>, d: int) -> bool {
    forall|h: int, i: int, j: int|
        0 <= h < s.dims@[1] && 0 <= i < s.dims@[2] && 0 <= j < s.dims@[3] ==> #[trigger] s.at(
            b,
            h,
            i,
            j,
        ) == #[trigger] r.at(d, h, i, j)
}

proof fn lemma_sigmoid(x: u32, r: u32, s: u32)
    requires
        settled(),
        sigmoid_gives(x, r),
        sigmoid_gives(x, s),
    ensures
        r == s,
{
}

proof fn lemma_softplus(x: u32, beta: u64, r: u32, s: u32)
    requires
        settled(),
        softplus_gives(x, beta, r),
        softplus_gives(x, beta, s),
    ensures
        r == s,
{
}

proof fn lemma_silu(x: u32, r: u32, s: u32)
    requires
        settled(),
        silu_gives(x, r),
        silu_gives(x, s),
    ensures
        r == s,
{
    let a = choose|a: u32| #[trigger]
        sigmoid_gives(x, a) && r == f32_mul(x, a);
    let b = choose|b: u32| #[trigger]
        sigmoid_gives(x, b) && s == f32_mul(x, b);
    lemma_sigmoid(x, a, b);
}

proof fn lemma_l2(x: Seq<u32>, eps: u64, r: Seq<u32>, s: Seq<u32>)
    requires
        settled(),
        l2_gives(x, eps, r),
        l2_gives(x, eps, s),
    ensures
        r == s,
{
    assert(r =~= s);
}

proof fn lemma_map(map: Linear, x: Seq<u32>, r: Seq<u32>, s: Seq<u32>)
    requires
        settled(),
        maps_row(map, x, r),
        maps_row(map, x, s),
    ensures
        r == s,
{
    assert forall|c: int| 0 <= c < r.len() implies r[c] == s[c] by {
        assert(matmul_gives(x, map.weight.col(c), r[c]));
        assert(matmul_gives(x, map.weight.col(c), s[c]));
    }
    assert(r =~= s);
}

proof fn lemma_silus(x: Seq<u32>, r: Seq<u32>, s: Seq<u32>)
    requires
        settled(),
        silu_row(x, r),
        silu_row(x, s),
    ensures
        r == s,
{
    assert forall|c: int| 0 <= c < r.len() implies r[c] == s[c] by {
        lemma_silu(x[c], r[c], s[c]);
    }
    assert(r =~= s);
}

proof fn lemma_sigmoids(x: Seq<u32>, r: Seq<u32>, s: Seq<u32>)
    requires
        settled(),
        sigmoid_row(x, r),
        sigmoid_row(x, s),
    ensures
        r == s,
{
    assert forall|c: int| 0 <= c < r.len() implies r[c] == s[c] by {
        lemma_sigmoid(x[c], r[c], s[c]);
    }
    assert(r =~= s);
}

proof fn lemma_log_decay(decay_fn: DecayFn, z: u32, scale: u32, g_min: u32, r: u32, s: u32)
    requires
        settled(),
        log_decay_gives(decay_fn, z, scale, g_min, r),
        log_decay_gives(decay_fn, z, scale, g_min, s),
    ensures
        r == s,
{
    let ar = f32_arith();
    let a = choose|a: u32| #[trigger]
        activates(decay_fn, z, scale, a) && r == log_decay(
            ar,
            decay_fn,
            scale,
            a,
            g_min,
        );
    let b = choose|b: u32| #[trigger]
        activates(decay_fn, z, scale, b) && s == log_decay(
            ar,
            decay_fn,
            scale,
            b,
            g_min,
        );
    match decay_fn {
        DecayFn::Softplus => lemma_softplus(z, SOFTPLUS_BETA, a, b),
        DecayFn::Sigmoid => lemma_sigmoid(f32_mul(z, scale), a, b),
    }
}

proof fn lemma_token_log_decay(
    decay: KdaDecay,
    z: Seq<u32>,
    a: Seq<u32>,
    h: int,
    c: int,
    r: u32,
    s: u32,
)
    requires
        settled(),
        token_log_decay(decay, z, a, h, c, r),
        token_log_decay(decay, z, a, h, c, s),
    ensures
        r == s,
{
    let n = h * decay.head_dim() + c;
    let logit = f32_add(z[n], decay.b_alpha.at(n));
    let g_min = narrowed(decay.g_min.bits);
    let (f1, a1) = choose|first: u32, alpha: u32|
        {
            &&& #[trigger] log_decay_gives(decay.decay_fn, logit, a[h], g_min, first)
            &&& #[trigger] exp_gives(first, alpha)
            &&& ln_gives(alpha, r)
        };
    let (f2, a2) = choose|first: u32, alpha: u32|
        {
            &&& #[trigger] log_decay_gives(decay.decay_fn, logit, a[h], g_min, first)
            &&& #[trigger] exp_gives(first, alpha)
            &&& ln_gives(alpha, s)
        };
    lemma_log_decay(decay.decay_fn, logit, a[h], g_min, f1, f2);
    assert(a1 == a2);
}

proof fn lemma_scales(decay: KdaDecay, a: Seq<u32>, b: Seq<u32>)
    requires
        settled(),
        decay.scales(a),
        decay.scales(b),
    ensures
        a == b,
{
    assert forall|h: int| 0 <= h < a.len() implies a[h] == b[h] by {
        assert(exp_gives(decay.a_log.at(h, 0), a[h]));
        assert(exp_gives(decay.a_log.at(h, 0), b[h]));
    }
    assert(a =~= b);
}

impl KdaModule {
    /// Two tokens give the recurrence the same numbers.
    pub open spec fn same_inputs(&self, p: TokenInputs, r: TokenInputs) -> bool {
        let h = self.heads();
        let hv = self.n_v_heads as int;
        let dk = self.head_dim as int;
        let dv = self.v_head_dim as int;
        &&& same(p.q, r.q, h, dk)
        &&& same(p.k, r.k, h, dk)
        &&& same(p.v, r.v, hv, dv)
        &&& same(p.g, r.g, h, dk)
        &&& same(p.beta_k, r.beta_k, h, dk)
        &&& same(p.beta, r.beta, h, dv)
        &&& same(p.gate, r.gate, hv, dv)
    }

    proof fn lemma_keyed_settled(
        &self,
        map: Linear,
        x: Seq<u32>,
        r: spec_fn(int, int) -> u32,
        s: spec_fn(int, int) -> u32,
    )
        requires
            settled(),
            self.token_keyed(map, x, r),
            self.token_keyed(map, x, s),
        ensures
            same(r, s, self.heads(), self.head_dim as int),
    {
        let (raw1, act1, unit1) = choose|raw: Seq<u32>, act: Seq<u32>, unit: Seq<u32>|
            {
                &&& #[trigger] maps_row(map, x, raw)
                &&& #[trigger] silu_row(raw, act)
                &&& #[trigger] l2_gives(act, L2_EPS, unit)
                &&& forall|h: int, c: int|
                    0 <= h < self.heads() && 0 <= c < self.head_dim ==> #[trigger] r(h, c)
                        == unit[(h / self.group()) * self.head_dim + c]
            };
        let (raw2, act2, unit2) = choose|raw: Seq<u32>, act: Seq<u32>, unit: Seq<u32>|
            {
                &&& #[trigger] maps_row(map, x, raw)
                &&& #[trigger] silu_row(raw, act)
                &&& #[trigger] l2_gives(act, L2_EPS, unit)
                &&& forall|h: int, c: int|
                    0 <= h < self.heads() && 0 <= c < self.head_dim ==> #[trigger] s(h, c)
                        == unit[(h / self.group()) * self.head_dim + c]
            };
        lemma_map(map, x, raw1, raw2);
        lemma_silus(raw1, act1, act2);
        lemma_l2(act1, L2_EPS, unit1, unit2);
    }

    proof fn lemma_valued_settled(
        &self,
        x: Seq<u32>,
        r: spec_fn(int, int) -> u32,
        s: spec_fn(int, int) -> u32,
    )
        requires
            settled(),
            self.token_valued(x, r),
            self.token_valued(x, s),
        ensures
            same(r, s, self.n_v_heads as int, self.v_head_dim as int),
    {
        let (raw1, act1) = choose|raw: Seq<u32>, act: Seq<u32>|
            {
                &&& #[trigger] maps_row(self.v_proj, x, raw)
                &&& #[trigger] silu_row(raw, act)
                &&& forall|h: int, c: int|
                    0 <= h < self.n_v_heads && 0 <= c < self.v_head_dim ==> #[trigger] r(h, c)
                        == act[h * self.v_head_dim + c]
            };
        let (raw2, act2) = choose|raw: Seq<u32>, act: Seq<u32>|
            {
                &&& #[trigger] maps_row(self.v_proj, x, raw)
                &&& #[trigger] silu_row(raw, act)
                &&& forall|h: int, c: int|
                    0 <= h < self.n_v_heads && 0 <= c < self.v_head_dim ==> #[trigger] s(h, c)
                        == act[h * self.v_head_dim + c]
            };
        lemma_map(self.v_proj, x, raw1, raw2);
        lemma_silus(raw1, act1, act2);
    }

    proof fn lemma_decayed_settled(
        &self,
        x: Seq<u32>,
        r: spec_fn(int, int) -> u32,
        s: spec_fn(int, int) -> u32,
    )
        requires
            settled(),
            self.token_decayed(x, r),
            self.token_decayed(x, s),
        ensures
            same(r, s, self.heads(), self.head_dim as int),
    {
        let (u1, z1, a1) = choose|u: Seq<u32>, z: Seq<u32>, a: Seq<u32>|
            {
                &&& #[trigger] maps_row(self.decay.w_up, x, u)
                &&& #[trigger] maps_row(self.decay.w_down, u, z)
                &&& #[trigger] self.decay.scales(a)
                &&& forall|h: int, c: int|
                    0 <= h < self.heads() && 0 <= c < self.head_dim ==> token_log_decay(
                        self.decay,
                        z,
                        a,
                        h / self.group(),
                        c,
                        #[trigger] r(h, c),
                    )
            };
        let (u2, z2, a2) = choose|u: Seq<u32>, z: Seq<u32>, a: Seq<u32>|
            {
                &&& #[trigger] maps_row(self.decay.w_up, x, u)
                &&& #[trigger] maps_row(self.decay.w_down, u, z)
                &&& #[trigger] self.decay.scales(a)
                &&& forall|h: int, c: int|
                    0 <= h < self.heads() && 0 <= c < self.head_dim ==> token_log_decay(
                        self.decay,
                        z,
                        a,
                        h / self.group(),
                        c,
                        #[trigger] s(h, c),
                    )
            };
        lemma_map(self.decay.w_up, x, u1, u2);
        lemma_map(self.decay.w_down, u1, z1, z2);
        lemma_scales(self.decay, a1, a2);
        assert forall|h: int, c: int|
            0 <= h < self.heads() && 0 <= c < self.head_dim implies #[trigger] r(h, c)
            == #[trigger] s(h, c) by {
            lemma_token_log_decay(self.decay, z1, a1, h / self.group(), c, r(h, c), s(h, c));
        }
    }

    proof fn lemma_strengthened_settled(
        &self,
        x: Seq<u32>,
        channels: int,
        r: spec_fn(int, int) -> u32,
        s: spec_fn(int, int) -> u32,
    )
        requires
            settled(),
            self.token_strengthened(x, channels, r),
            self.token_strengthened(x, channels, s),
        ensures
            same(r, s, self.heads(), channels),
    {
        let (l1, b1) = choose|logit: Seq<u32>, beta: Seq<u32>|
            {
                &&& #[trigger] maps_row(self.beta_proj, x, logit)
                &&& #[trigger] sigmoid_row(logit, beta)
                &&& forall|h: int, c: int|
                    0 <= h < self.heads() && 0 <= c < channels ==> #[trigger] r(h, c)
                        == beta[h / self.group()]
            };
        let (l2, b2) = choose|logit: Seq<u32>, beta: Seq<u32>|
            {
                &&& #[trigger] maps_row(self.beta_proj, x, logit)
                &&& #[trigger] sigmoid_row(logit, beta)
                &&& forall|h: int, c: int|
                    0 <= h < self.heads() && 0 <= c < channels ==> #[trigger] s(h, c)
                        == beta[h / self.group()]
            };
        lemma_map(self.beta_proj, x, l1, l2);
        lemma_sigmoids(l1, b1, b2);
    }

    proof fn lemma_gate_logits_settled(&self, x: Seq<u32>, r: Seq<u32>, s: Seq<u32>)
        requires
            settled(),
            self.token_gate_logits(x, r),
            self.token_gate_logits(x, s),
        ensures
            r == s,
    {
        match self.gate {
            GateMode::FullRank => lemma_map(self.o_gate.unwrap(), x, r, s),
            GateMode::LowRank => {
                let up = self.o_gate_up.unwrap();
                let down = self.o_gate_down.unwrap();
                let u1 = choose|u: Seq<u32>| #[trigger] maps_row(up, x, u) && maps_row(down, u, r);
                let u2 = choose|u: Seq<u32>| #[trigger] maps_row(up, x, u) && maps_row(down, u, s);
                lemma_map(up, x, u1, u2);
                lemma_map(down, u1, r, s);
            },
        }
    }

    proof fn lemma_gated_settled(
        &self,
        x: Seq<u32>,
        r: spec_fn(int, int) -> u32,
        s: spec_fn(int, int) -> u32,
    )
        requires
            settled(),
            self.token_gated(x, r),
            self.token_gated(x, s),
        ensures
            same(r, s, self.n_v_heads as int, self.v_head_dim as int),
    {
        let (l1, s1) = choose|logit: Seq<u32>, v: Seq<u32>|
            {
                &&& #[trigger] self.token_gate_logits(x, logit)
                &&& #[trigger] sigmoid_row(logit, v)
                &&& forall|h: int, c: int|
                    0 <= h < self.n_v_heads && 0 <= c < self.v_head_dim ==> #[trigger] r(h, c)
                        == v[h * self.v_head_dim + c]
            };
        let (l2, s2) = choose|logit: Seq<u32>, v: Seq<u32>|
            {
                &&& #[trigger] self.token_gate_logits(x, logit)
                &&& #[trigger] sigmoid_row(logit, v)
                &&& forall|h: int, c: int|
                    0 <= h < self.n_v_heads && 0 <= c < self.v_head_dim ==> #[trigger] s(h, c)
                        == v[h * self.v_head_dim + c]
            };
        self.lemma_gate_logits_settled(x, l1, l2);
        lemma_sigmoids(l1, s1, s2);
    }

    /// The same channels give the recurrence the same numbers.
    proof fn lemma_token_projects_settled(&self, x: Seq<u32>, p: TokenInputs, r: TokenInputs)
        requires
            settled(),
            self.token_projects(x, p),
            self.token_projects(x, r),
        ensures
            self.same_inputs(p, r),
    {
        self.lemma_keyed_settled(self.q_proj, x, p.q, r.q);
        self.lemma_keyed_settled(self.k_proj, x, p.k, r.k);
        self.lemma_valued_settled(x, p.v, r.v);
        self.lemma_decayed_settled(x, p.g, r.g);
        self.lemma_strengthened_settled(x, self.head_dim as int, p.beta_k, r.beta_k);
        self.lemma_strengthened_settled(x, self.v_head_dim as int, p.beta, r.beta);
        self.lemma_gated_settled(x, p.gate, r.gate);
    }

    /// Without short convolutions a token's projections depend on that token of that batch
    /// row alone: where two inputs agree on a token, the projections of it agree.
    pub proof fn law_projection_is_token_wise(
        &self,
        x1: Tensor<3>,
        p1: Projection,
        b1: int,
        t1: int,
        x2: Tensor<3>,
        p2: Projection,
        b2: int,
        t2: int,
    )
        requires
            settled(),
            self.wf(),
            !self.use_short_conv,
            self.projects(x1, p1),
            self.projects(x2, p2),
            0 <= b1 < x1.dims@[0],
            0 <= t1 < x1.dims@[1],
            0 <= b2 < x2.dims@[0],
            0 <= t2 < x2.dims@[1],
            x1.row(b1, t1) == x2.row(b2, t2),
        ensures
            self.same_inputs(inputs_at(p1, b1, t1), inputs_at(p2, b2, t2)),
    {
        self.law_projection_by_token(x1, p1, b1, t1);
        self.law_projection_by_token(x2, p2, b2, t2);
        self.lemma_token_projects_settled(
            x1.row(b1, t1),
            inputs_at(p1, b1, t1),
            inputs_at(p2, b2, t2),
        );
    }

    /// `s` has the extents of a state.
    pub open spec fn state_extents(&self, s: Tensor<4>) -> bool {
        s.dims@[1] == self.n_v_heads && s.dims@[2] == self.head_dim && s.dims@[3]
            == self.v_head_dim
    }

    /// The same inputs take the same states to the same states and outputs.
    proof fn lemma_recurs_settled(
        &self,
        s1: Tensor<4>,
        p1: TokenInputs,
        n1: Tensor<4>,
        o1: spec_fn(int, int) -> u32,
        b1: int,
        s2: Tensor<4>,
        p2: TokenInputs,
        n2: Tensor<4>,
        o2: spec_fn(int, int) -> u32,
        b2: int,
    )
        requires
            settled(),
            self.groups_values(),
            self.token_recurs(s1, p1, n1, o1, b1),
            self.token_recurs(s2, p2, n2, o2, b2),
            self.same_inputs(p1, p2),
            self.state_extents(s1),
            self.state_extents(n1),
            same_state(s1, b1, s2, b2),
        ensures
            same_state(n1, b1, n2, b2),
            same(o1, o2, self.n_v_heads as int, self.v_head_dim as int),
    {
        let dk = self.head_dim as nat;
        let d1 = choose|d: spec_fn(int, int) -> u32|
            {
                &&& #[trigger] self.token_exp(p1.g, d)
                &&& forall|h: int, j: int|
                    0 <= h < self.n_v_heads && 0 <= j < self.v_head_dim
                        ==> #[trigger] self.token_entry(s1, p1, d, n1, o1, b1, h, j)
            };
        let d2 = choose|d: spec_fn(int, int) -> u32|
            {
                &&& #[trigger] self.token_exp(p2.g, d)
                &&& forall|h: int, j: int|
                    0 <= h < self.n_v_heads && 0 <= j < self.v_head_dim
                        ==> #[trigger] self.token_entry(s2, p2, d, n2, o2, b2, h, j)
            };
        assert(same(d1, d2, self.n_v_heads as int, dk as int)) by {
            assert forall|h: int, i: int| 0 <= h < self.n_v_heads && 0 <= i < dk implies #[trigger] d1(
                h,
                i,
            ) == #[trigger] d2(h, i) by {
                assert((p1.g)(h, i) == (p2.g)(h, i));
                assert(exp_gives((p1.g)(h, i), d1(h, i)));
                assert(exp_gives((p2.g)(h, i), d2(h, i)));
            }
        }
        assert forall|h: int, j: int| 0 <= h < self.n_v_heads && 0 <= j < self.v_head_dim implies ({
            &&& forall|i: int|
                0 <= i < dk ==> #[trigger] n1.at(b1, h, i, j) == n2.at(b2, h, i, j)
            &&& #[trigger] o1(h, j) == o2(h, j)
        }) by {
            assert(self.token_entry(s1, p1, d1, n1, o1, b1, h, j));
            assert(self.token_entry(s2, p2, d2, n2, o2, b2, h, j));
            let x1 = token_products(s1, d1, p1.k, dk, b1, h, j);
            let x2 = token_products(s2, d2, p2.k, dk, b2, h, j);
            assert forall|i: int| 0 <= i < dk implies x1[i] == x2[i] by {
                assert(s1.at(b1, h, i, j) == s2.at(b2, h, i, j));
                assert(d1(h, i) == d2(h, i));
                assert((p1.k)(h, i) == (p2.k)(h, i));
            }
            assert(x1 =~= x2);
            assert((p1.v)(h, j) == (p2.v)(h, j));
            assert((p1.beta)(h, j) == (p2.beta)(h, j));
            assert forall|i: int| 0 <= i < dk implies #[trigger] n1.at(b1, h, i, j) == n2.at(
                b2,
                h,
                i,
                j,
            ) by {
                assert(s1.at(b1, h, i, j) == s2.at(b2, h, i, j));
                assert(d1(h, i) == d2(h, i));
                assert((p1.k)(h, i) == (p2.k)(h, i));
            }
            let y1 = token_reads(n1, p1.q, dk, b1, h, j);
            let y2 = token_reads(n2, p2.q, dk, b2, h, j);
            assert forall|i: int| 0 <= i < dk implies y1[i] == y2[i] by {
                assert(n1.at(b1, h, i, j) == n2.at(b2, h, i, j));
                assert((p1.q)(h, i) == (p2.q)(h, i));
            }
            assert(y1 =~= y2);
        }
        assert forall|h: int, i: int, j: int|
            0 <= h < n1.dims@[1] && 0 <= i < n1.dims@[2] && 0 <= j < n1.dims@[3] implies #[trigger] n1.at(
            b1,
            h,
            i,
            j,
        ) == #[trigger] n2.at(b2, h, i, j) by {
            assert(o1(h, j) == o2(h, j));
        }
    }

    /// The same outputs of the heads give the same output of the layer.
    proof fn lemma_outputs_settled(
        &self,
        o1: spec_fn(int, int) -> u32,
        g1: spec_fn(int, int) -> u32,
        y1: Seq<u32>,
        o2: spec_fn(int, int) -> u32,
        g2: spec_fn(int, int) -> u32,
        y2: Seq<u32>,
    )
        requires
            settled(),
            self.wf(),
            self.token_outputs(o1, g1, y1),
            self.token_outputs(o2, g2, y2),
            same(o1, o2, self.n_v_heads as int, self.v_head_dim as int),
            same(g1, g2, self.n_v_heads as int, self.v_head_dim as int),
        ensures
            y1 == y2,
    {
        let m1 = choose|m: Seq<u32>| #[trigger]
            self.token_merges(o1, g1, m) && maps_row(self.o_proj, m, y1);
        let m2 = choose|m: Seq<u32>| #[trigger]
            self.token_merges(o2, g2, m) && maps_row(self.o_proj, m, y2);
        let vd = self.v_head_dim as int;
        assert(m1.len() == self.values() && m2.len() == self.values());
        assert forall|n: int| 0 <= n < m1.len() implies m1[n] == m2[n] by {
            let h = n / vd;
            let c = n % vd;
            vstd::arithmetic::div_mod::lemma_fundamental_div_mod(n, vd);
            assert(0 <= h < self.n_v_heads && 0 <= c < vd && n == h * vd + c) by (nonlinear_arith)
                requires
                    0 <= n < self.n_v_heads * vd,
                    vd > 0,
                    h == n / vd,
                    c == n % vd,
                    n == vd * h + c,
            ;
            assert(self.token_head_outputs(o1, g1, m1, h));
            assert(self.token_head_outputs(o2, g2, m2, h));
            let r1 = head_row(o1, vd as nat, h);
            let r2 = head_row(o2, vd as nat, h);
            assert forall|d: int| 0 <= d < vd implies r1[d] == r2[d] by {
                assert(o1(h, d) == o2(h, d));
            }
            assert(r1 =~= r2);
            assert(o1(h, c) == o2(h, c));
            assert(g1(h, c) == g2(h, c));
            assert(m1[h * vd + c] == m2[h * vd + c]);
        }
        assert(m1 =~= m2);
        lemma_map(self.o_proj, m1, y1, y2);
    }

    /// The same token from the same state.
    proof fn lemma_batch_settled(
        &self,
        x: Seq<u32>,
        s1: Tensor<4>,
        n1: Tensor<4>,
        y1: Seq<u32>,
        b1: int,
        s2: Tensor<4>,
        n2: Tensor<4>,
        y2: Seq<u32>,
        b2: int,
    )
        requires
            settled(),
            self.wf(),
            self.groups_values(),
            self.token_batch(x, s1, n1, y1, b1),
            self.token_batch(x, s2, n2, y2, b2),
            self.state_extents(s1),
            self.state_extents(n1),
            same_state(s1, b1, s2, b2),
        ensures
            same_state(n1, b1, n2, b2),
            y1 == y2,
    {
        let (p1, o1) = choose|p: TokenInputs, o: spec_fn(int, int) -> u32|
            {
                &&& #[trigger] self.token_projects(x, p)
                &&& #[trigger] self.token_recurs(s1, p, n1, o, b1)
                &&& self.token_outputs(o, p.gate, y1)
            };
        let (p2, o2) = choose|p: TokenInputs, o: spec_fn(int, int) -> u32|
            {
                &&& #[trigger] self.token_projects(x, p)
                &&& #[trigger] self.token_recurs(s2, p, n2, o, b2)
                &&& self.token_outputs(o, p.gate, y2)
            };
        self.lemma_token_projects_settled(x, p1, p2);
        self.lemma_recurs_settled(s1, p1, n1, o1, b1, s2, p2, n2, o2, b2);
        self.lemma_outputs_settled(o1, p1.gate, y1, o2, p2.gate, y2);
    }

    /// Along two chains whose first tokens agree in batch row `b`, the states after them
    /// and the answers to them agree there.
    proof fn lemma_streams_settled(
        &self,
        x1: Seq<Seq<Seq<u32>>>,
        y1: Seq<Seq<Seq<u32>>>,
        a1: Seq<Tensor<4>>,
        x2: Seq<Seq<Seq<u32>>>,
        y2: Seq<Seq<Seq<u32>>>,
        a2: Seq<Tensor<4>>,
        b: int,
        n: int,
    )
        requires
            settled(),
            self.wf(),
            self.groups_values(),
            self.streams_along(x1, y1, a1),
            self.streams_along(x2, y2, a2),
            0 <= n <= x1.len(),
            n <= x2.len(),
            forall|m: int|
                0 <= m < n ==> 0 <= b < (#[trigger] x1[m]).len() && b < x2[m].len() && x1[m][b]
                    == x2[m][b],
            self.state_extents(a1[0]),
            same_state(a1[0], b, a2[0], b),
        ensures
            self.state_extents(a1[n]),
            same_state(a1[n], b, a2[n], b),
            forall|m: int| 0 <= m < n ==> (#[trigger] y1[m])[b] == y2[m][b],
        decreases n,
    {
        if n > 0 {
            self.lemma_streams_settled(x1, y1, a1, x2, y2, a2, b, n - 1);
            let m = n - 1;
            assert(self.token_forwards(x1[m], a1[m], a1[m + 1], y1[m]));
            assert(self.token_forwards(x2[m], a2[m], a2[m + 1], y2[m]));
            assert(self.token_batch(x1[m][b], a1[m], a1[m + 1], y1[m][b], b));
            assert(self.token_batch(x2[m][b], a2[m], a2[m + 1], y2[m][b], b));
            self.lemma_batch_settled(
                x1[m][b],
                a1[m],
                a1[m + 1],
                y1[m][b],
                b,
                a2[m],
                a2[m + 1],
                y2[m][b],
                b,
            );
        }
    }

    /// An output token never depends on later tokens, nor on other batch rows: where two
    /// inputs agree on the tokens of row `b` up to `t`, and the states they start from agree
    /// there, so do the outputs.
    pub proof fn law_decoding_is_causal(
        &self,
        x1: Tensor<3>,
        s1: Tensor<4>,
        y1: Tensor<3>,
        last1: Tensor<4>,
        x2: Tensor<3>,
        s2: Tensor<4>,
        y2: Tensor<3>,
        last2: Tensor<4>,
        b: int,
        t: int,
    )
        requires
            settled(),
            self.wf(),
            self.groups_values(),
            !self.use_short_conv,
            self.state_shaped(s1, x1.dims@[0] as int),
            self.state_shaped(s2, x2.dims@[0] as int),
            self.forwards(x1, s1, true, y1, last1),
            self.forwards(x2, s2, true, y2, last2),
            0 <= b < x1.dims@[0],
            b < x2.dims@[0],
            0 <= t < x1.dims@[1],
            t < x2.dims@[1],
            same_state(s1, b, s2, b),
            forall|n: int| 0 <= n <= t ==> #[trigger] x1.row(b, n) == x2.row(b, n),
        ensures
            forall|n: int| 0 <= n <= t ==> #[trigger] y1.row(b, n) == y2.row(b, n),
    {
        self.law_decoding_is_autoregressive(x1, s1, y1, last1);
        self.law_decoding_is_autoregressive(x2, s2, y2, last2);
        let (u1, v1) = (tokens_of(x1), tokens_of(y1));
        let (u2, v2) = (tokens_of(x2), tokens_of(y2));
        let a1 = choose|a: Seq<Tensor<4>>|
            {
                &&& a.len() == u1.len() + 1
                &&& a[0] == s1
                &&& a[u1.len() as int] == last1
                &&& #[trigger] self.streams_along(u1, v1, a)
            };
        let a2 = choose|a: Seq<Tensor<4>>|
            {
                &&& a.len() == u2.len() + 1
                &&& a[0] == s2
                &&& a[u2.len() as int] == last2
                &&& #[trigger] self.streams_along(u2, v2, a)
            };
        assert forall|m: int| 0 <= m < t + 1 implies 0 <= b < (#[trigger] u1[m]).len() && b
            < u2[m].len() && u1[m][b] == u2[m][b] by {
            assert(x1.row(b, m) == x2.row(b, m));
        }
        self.lemma_streams_settled(u1, v1, a1, u2, v2, a2, b, t + 1);
        assert forall|n: int| 0 <= n <= t implies #[trigger] y1.row(b, n) == y2.row(b, n) by {
            assert(self.token_forwards(u1[n], a1[n], a1[n + 1], v1[n]));
            assert(self.token_forwards(u2[n], a2[n], a2[n + 1], v2[n]));
            assert(v1[n][b] == y1.row(b, n));
            assert(v2[n][b] == y2.row(b, n));
        }
    }

    /// Decoding in pieces with the state carried over gives what decoding in one call
    /// gives: the same outputs and the same state after the last token.
    pub proof fn law_pieces_equal_one_call(
        &self,
        x: Tensor<3>,
        s: Tensor<4>,
        y: Tensor<3>,
        last: Tensor<4>,
        x1: Tensor<3>,
        y1: Tensor<3>,
        between: Tensor<4>,
        x2: Tensor<3>,
        y2: Tensor<3>,
        last2: Tensor<4>,
    )
        requires
            settled(),
            self.wf(),
            self.groups_values(),
            !self.use_short_conv,
            x1.dims@[0] == x.dims@[0],
            x2.dims@[0] == x.dims@[0],
            tokens_of(x) == tokens_of(x1) + tokens_of(x2),
            self.state_shaped(s, x.dims@[0] as int),
            self.state_shaped(between, x.dims@[0] as int),
            self.forwards(x, s, true, y, last),
            self.forwards(x1, s, true, y1, between),
            self.forwards(x2, between, true, y2, last2),
        ensures
            tokens_of(y) == tokens_of(y1) + tokens_of(y2),
            forall|b: int| 0 <= b < x.dims@[0] ==> #[trigger] same_state(last, b, last2, b),
    {
        self.law_decoding_is_autoregressive(x, s, y, last);
        self.law_decoding_in_pieces(x1, x2, s, between, last2, y1, y2);
        let u = tokens_of(x);
        let v = tokens_of(y);
        let w = tokens_of(y1) + tokens_of(y2);
        let a1 = choose|a: Seq<Tensor<4>>|
            {
                &&& a.len() == u.len() + 1
                &&& a[0] == s
                &&& a[u.len() as int] == last
                &&& #[trigger] self.streams_along(u, v, a)
            };
        let a2 = choose|a: Seq<Tensor<4>>|
            {
                &&& a.len() == u.len() + 1
                &&& a[0] == s
                &&& a[u.len() as int] == last2
                &&& #[trigger] self.streams_along(u, w, a)
            };
        let n = u.len() as int;
        assert forall|b: int| 0 <= b < x.dims@[0] implies #[trigger] same_state(last, b, last2, b) && (
        forall|m: int| 0 <= m < n ==> (#[trigger] v[m])[b] == w[m][b]) by {
            self.lemma_streams_settled(u, v, a1, u, w, a2, b, n);
        }
        assert forall|m: int| 0 <= m < n implies v[m] == w[m] by {
            assert(self.token_forwards(u[m], a1[m], a1[m + 1], v[m]));
            assert(self.token_forwards(u[m], a2[m], a2[m + 1], w[m]));
            assert forall|b: int| 0 <= b < v[m].len() implies v[m][b] == w[m][b] by {
                assert(same_state(last, b, last2, b));
            }
            assert(v[m] =~= w[m]);
        }
        assert(v =~= w);
    }

    /// The activations of the same input, with or without a short convolution.
    proof fn lemma_activates_settled(
        &self,
        map: Linear,
        conv: Option<Tensor<2>>,
        x: Tensor<3>,
        raw1: Tensor<3>,
        act1: Tensor<3>,
        raw2: Tensor<3>,
        act2: Tensor<3>,
        b: int,
        t: int,
    )
        requires
            settled(),
            map.maps(x, raw1),
            map.maps(x, raw2),
            self.activates(conv, raw1, act1),
            self.activates(conv, raw2, act2),
            0 <= b < x.dims@[0],
            0 <= t < x.dims@[1],
        ensures
            act1.row(b, t) == act2.row(b, t),
    {
        assert forall|n: int| 0 <= n < x.dims@[1] implies #[trigger] raw1.row(b, n) == raw2.row(
            b,
            n,
        ) by {
            lemma_maps_row(map, x, raw1, b, n);
            lemma_maps_row(map, x, raw2, b, n);
            lemma_map(map, x.row(b, n), raw1.row(b, n), raw2.row(b, n));
        }
        assert forall|c: int| 0 <= c < act1.row(b, t).len() implies act1.row(b, t)[c] == act2.row(
            b,
            t,
        )[c] by {
            assert(act1.has(b, t, c) && act2.has(b, t, c));
            assert forall|n: int| 0 <= n < x.dims@[1] implies #[trigger] raw1.at(b, n, c) == raw2.at(
                b,
                n,
                c,
            ) by {
                assert(raw1.row(b, n)[c] == raw2.row(b, n)[c]);
            }
            match conv {
                Some(w) => {
                    assert(conv_window(raw1, b, t, c) =~= conv_window(raw2, b, t, c)) by {
                        assert forall|n: int| 0 <= n < 4 implies conv_window(raw1, b, t, c)[n]
                            == conv_window(raw2, b, t, c)[n] by {
                            assert(raw1.at(b, tap_token(t, n), c) == raw2.at(
                                b,
                                tap_token(t, n),
                                c,
                            ));
                        }
                    }
                    let window = conv_window(raw1, b, t, c);
                    assert(conv_gives(window, w.row(c), act1.at(b, t, c)));
                    assert(conv_gives(window, w.row(c), act2.at(b, t, c)));
                    lemma_silu(
                        tap_sum(window, w.row(c)),
                        act1.at(b, t, c),
                        act2.at(b, t, c),
                    );
                },
                None => {
                    assert(raw1.at(b, t, c) == raw2.at(b, t, c));
                    assert(silu_gives(raw1.at(b, t, c), act1.at(b, t, c)));
                    assert(silu_gives(raw2.at(b, t, c), act2.at(b, t, c)));
                    lemma_silu(raw1.at(b, t, c), act1.at(b, t, c), act2.at(b, t, c));
                },
            }
        }
        assert(act1.row(b, t) =~= act2.row(b, t));
    }

    proof fn lemma_keys_settled(
        &self,
        map: Linear,
        conv: Option<Tensor<2>>,
        x: Tensor<3>,
        r1: Tensor<4>,
        r2: Tensor<4>,
        b: int,
        t: int,
    )
        requires
            settled(),
            self.wf(),
            map.shaped(self.d_model as int, self.keys()),
            self.keyed(map, conv, x, r1),
            self.keyed(map, conv, x, r2),
            0 <= b < x.dims@[0],
            0 <= t < x.dims@[1],
        ensures
            same(
                |h: int, c: int| r1.at(b, h, t, c),
                |h: int, c: int| r2.at(b, h, t, c),
                self.heads(),
                self.head_dim as int,
            ),
    {
        let dk = self.head_dim as int;
        let (raw1, act1, unit1) = choose|raw: Tensor<3>, act: Tensor<3>, unit: Tensor<3>|
            {
                &&& #[trigger] map.maps(x, raw)
                &&& #[trigger] self.activates(conv, raw, act)
                &&& #[trigger] normalizes(act, unit)
                &&& heads_of(unit, self.heads(), self.group(), dk, r1)
            };
        let (raw2, act2, unit2) = choose|raw: Tensor<3>, act: Tensor<3>, unit: Tensor<3>|
            {
                &&& #[trigger] map.maps(x, raw)
                &&& #[trigger] self.activates(conv, raw, act)
                &&& #[trigger] normalizes(act, unit)
                &&& heads_of(unit, self.heads(), self.group(), dk, r2)
            };
        self.lemma_activates_settled(map, conv, x, raw1, act1, raw2, act2, b, t);
        assert(l2_gives(act1.row(b, t), L2_EPS, unit1.row(b, t)));
        assert(l2_gives(act2.row(b, t), L2_EPS, unit2.row(b, t)));
        lemma_l2(act1.row(b, t), L2_EPS, unit1.row(b, t), unit2.row(b, t));
        let f = |h: int, c: int| r1.at(b, h, t, c);
        let g = |h: int, c: int| r2.at(b, h, t, c);
        assert forall|h: int, c: int| 0 <= h < self.heads() && 0 <= c < dk implies #[trigger] f(
            h,
            c,
        ) == #[trigger] g(h, c) by {
            self.lemma_group_channel(h, c);
            assert(r1.has(b, h, t, c) && r2.has(b, h, t, c));
            let n = (h / self.group()) * dk + c;
            assert(unit1.row(b, t)[n] == unit2.row(b, t)[n]);
        }
    }

    proof fn lemma_values_settled(
        &self,
        x: Tensor<3>,
        r1: Tensor<4>,
        r2: Tensor<4>,
        b: int,
        t: int,
    )
        requires
            settled(),
            self.wf(),
            self.valued(x, r1),
            self.valued(x, r2),
            0 <= b < x.dims@[0],
            0 <= t < x.dims@[1],
        ensures
            same(
                |h: int, c: int| r1.at(b, h, t, c),
                |h: int, c: int| r2.at(b, h, t, c),
                self.n_v_heads as int,
                self.v_head_dim as int,
            ),
    {
        let hv = self.n_v_heads as int;
        let dv = self.v_head_dim as int;
        let (raw1, act1) = choose|raw: Tensor<3>, act: Tensor<3>|
            {
                &&& #[trigger] self.v_proj.maps(x, raw)
                &&& #[trigger] self.activates(self.v_conv_w, raw, act)
                &&& heads_of(act, hv, 1, dv, r1)
            };
        let (raw2, act2) = choose|raw: Tensor<3>, act: Tensor<3>|
            {
                &&& #[trigger] self.v_proj.maps(x, raw)
                &&& #[trigger] self.activates(self.v_conv_w, raw, act)
                &&& heads_of(act, hv, 1, dv, r2)
            };
        self.lemma_activates_settled(
            self.v_proj,
            self.v_conv_w,
            x,
            raw1,
            act1,
            raw2,
            act2,
            b,
            t,
        );
        let f = |h: int, c: int| r1.at(b, h, t, c);
        let g = |h: int, c: int| r2.at(b, h, t, c);
        assert forall|h: int, c: int| 0 <= h < hv && 0 <= c < dv implies #[trigger] f(h, c)
            == #[trigger] g(h, c) by {
            assert(r1.has(b, h, t, c) && r2.has(b, h, t, c));
            assert(h / 1 == h);
            lemma_block(h, c, hv, dv);
            assert(act1.row(b, t)[h * dv + c] == act2.row(b, t)[h * dv + c]);
        }
    }

    /// Projecting the same hidden states twice gives the same projection.
    pub proof fn law_projection_is_settled(
        &self,
        x: Tensor<3>,
        p1: Projection,
        p2: Projection,
        b: int,
        t: int,
    )
        requires
            settled(),
            self.wf(),
            self.projects(x, p1),
            self.projects(x, p2),
            0 <= b < x.dims@[0],
            0 <= t < x.dims@[1],
        ensures
            self.same_inputs(inputs_at(p1, b, t), inputs_at(p2, b, t)),
    {
        let i1 = inputs_at(p1, b, t);
        let i2 = inputs_at(p2, b, t);
        let row = x.row(b, t);
        self.lemma_keys_settled(self.q_proj, self.q_conv_w, x, p1.q, p2.q, b, t);
        self.lemma_keys_settled(self.k_proj, self.k_conv_w, x, p1.k, p2.k, b, t);
        self.lemma_values_settled(x, p1.v, p2.v, b, t);
        self.lemma_token_decayed(x, p1.g, b, t);
        self.lemma_token_decayed(x, p2.g, b, t);
        self.lemma_decayed_settled(row, i1.g, i2.g);
        self.lemma_token_strengthened(x, p1.beta_k, p1.beta_v, b, t);
        self.lemma_token_strengthened(x, p2.beta_k, p2.beta_v, b, t);
        self.lemma_strengthened_settled(row, self.head_dim as int, i1.beta_k, i2.beta_k);
        self.lemma_strengthened_settled(row, self.v_head_dim as int, i1.beta, i2.beta);
        self.lemma_token_gated(x, p1.gate, b, t);
        self.lemma_token_gated(x, p2.gate, b, t);
        self.lemma_gated_settled(row, i1.gate, i2.gate);
    }

    /// Along two decoding passes over the same projections from the same state.
    proof fn lemma_traces_settled(
        &self,
        x: Tensor<3>,
        p1: Projection,
        a1: Seq<Tensor<4>>,
        o1: Tensor<4>,
        p2: Projection,
        a2: Seq<Tensor<4>>,
        o2: Tensor<4>,
        b: int,
        n: int,
    )
        requires
            settled(),
            self.wf(),
            self.groups_values(),
            self.projects(x, p1),
            self.projects(x, p2),
            traces(p1, 0, a1, o1),
            traces(p2, 0, a2, o2),
            0 <= n <= x.dims@[1],
            a1.len() == x.dims@[1] + 1,
            a2.len() == x.dims@[1] + 1,
            self.state_shaped(a1[0], x.dims@[0] as int),
            self.state_shaped(a2[0], x.dims@[0] as int),
            0 <= b < x.dims@[0],
            same_state(a1[0], b, a2[0], b),
        ensures
            same_state(a1[n], b, a2[n], b),
            forall|t: int|
                0 <= t < n ==> #[trigger] self.same_outputs(o1, o2, b, t),
        decreases n,
    {
        if n > 0 {
            let t = n - 1;
            let batches = x.dims@[0] as int;
            self.lemma_traces_settled(x, p1, a1, o1, p2, a2, o2, b, t);
            self.lemma_projection_shaped(x, p1);
            self.lemma_projection_shaped(x, p2);
            self.lemma_trace_shaped(p1, a1, o1, batches, t);
            self.lemma_trace_shaped(p1, a1, o1, batches, n);
            self.lemma_trace_shaped(p2, a2, o2, batches, t);
            assert(token_steps(a1[t], p1, 0 + t, a1[t + 1], o1));
            assert(token_steps(a2[t], p2, 0 + t, a2[t + 1], o2));
            self.lemma_token_recurs(a1[t], p1, t, a1[n], o1, b);
            self.lemma_token_recurs(a2[t], p2, t, a2[n], o2, b);
            self.law_projection_is_settled(x, p1, p2, b, t);
            self.lemma_recurs_settled(
                a1[t],
                inputs_at(p1, b, t),
                a1[n],
                |h: int, c: int| o1.at(b, h, t, c),
                b,
                a2[t],
                inputs_at(p2, b, t),
                a2[n],
                |h: int, c: int| o2.at(b, h, t, c),
                b,
            );
        }
    }

    /// Two sets of heads' outputs agree at token `t` of batch `b`.
    pub open spec fn same_outputs(&self, o1: Tensor<4>, o2: Tensor<4>, b: int, t: int) -> bool {
        same(
            |h: int, c: int| o1.at(b, h, t, c),
            |h: int, c: int| o2.at(b, h, t, c),
            self.n_v_heads as int,
            self.v_head_dim as int,
        )
    }

    /// Two passes over the same hidden states from states with the same numbers give the
    /// same outputs and states with the same numbers.
    pub proof fn law_forward_is_settled(
        &self,
        x: Tensor<3>,
        update_state: bool,
        s1: Tensor<4>,
        y1: Tensor<3>,
        last1: Tensor<4>,
        s2: Tensor<4>,
        y2: Tensor<3>,
        last2: Tensor<4>,
    )
        requires
            settled(),
            self.wf(),
            self.groups_values(),
            self.state_shaped(s1, x.dims@[0] as int),
            self.state_shaped(s2, x.dims@[0] as int),
            self.forwards(x, s1, update_state, y1, last1),
            self.forwards(x, s2, update_state, y2, last2),
            forall|b: int| 0 <= b < x.dims@[0] ==> #[trigger] same_state(s1, b, s2, b),
        ensures
            forall|b: int, t: int|
                0 <= b < x.dims@[0] && 0 <= t < x.dims@[1] ==> #[trigger] y1.row(b, t) == y2.row(
                    b,
                    t,
                ),
            forall|b: int| 0 <= b < x.dims@[0] ==> #[trigger] same_state(last1, b, last2, b),
    {
        let (p1, o1) = choose|p: Projection, o: Tensor<4>|
            {
                &&& #[trigger] self.projects(x, p)
                &&& #[trigger] self.attends(p, s1, update_state, o, last1)
                &&& self.outputs(o, p.gate, y1)
            };
        let (p2, o2) = choose|p: Projection, o: Tensor<4>|
            {
                &&& #[trigger] self.projects(x, p)
                &&& #[trigger] self.attends(p, s2, update_state, o, last2)
                &&& self.outputs(o, p.gate, y2)
            };
        self.lemma_projection_shaped(x, p1);
        self.lemma_projection_shaped(x, p2);
        let tokens = x.dims@[1] as int;
        assert forall|b: int| 0 <= b < x.dims@[0] implies #[trigger] same_state(
            last1,
            b,
            last2,
            b,
        ) && (forall|t: int| 0 <= t < tokens ==> #[trigger] self.same_outputs(o1, o2, b, t)) by {
            if update_state {
                let a1 = choose|a: Seq<Tensor<4>>|
                    {
                        &&& a.len() == tokens - 0 + 1
                        &&& a[0] == s1
                        &&& a[tokens - 0] == last1
                        &&& #[trigger] traces(p1, 0, a, o1)
                    };
                let a2 = choose|a: Seq<Tensor<4>>|
                    {
                        &&& a.len() == tokens - 0 + 1
                        &&& a[0] == s2
                        &&& a[tokens - 0] == last2
                        &&& #[trigger] traces(p2, 0, a, o2)
                    };
                assert(same_state(s1, b, s2, b));
                self.lemma_traces_settled(x, p1, a1, o1, p2, a2, o2, b, tokens);
            } else {
                assert(same_state(s1, b, s2, b));
                assert forall|t: int| 0 <= t < tokens implies #[trigger] self.same_outputs(
                    o1,
                    o2,
                    b,
                    t,
                ) by {
                    self.lemma_reads_settled(x, p1, s1, o1, p2, s2, o2, b, t);
                }
            }
        }
        assert forall|b: int, t: int| 0 <= b < x.dims@[0] && 0 <= t < tokens implies #[trigger] y1.row(
            b,
            t,
        ) == y2.row(b, t) by {
            assert(same_state(last1, b, last2, b));
            assert(self.same_outputs(o1, o2, b, t));
            self.law_projection_is_settled(x, p1, p2, b, t);
            self.lemma_token_outputs(o1, p1.gate, y1, b, t);
            self.lemma_token_outputs(o2, p2.gate, y2, b, t);
            self.lemma_outputs_settled(
                |h: int, c: int| o1.at(b, h, t, c),
                |h: int, c: int| p1.gate.at(b, h, t, c),
                y1.row(b, t),
                |h: int, c: int| o2.at(b, h, t, c),
                |h: int, c: int| p2.gate.at(b, h, t, c),
                y2.row(b, t),
            );
        }
    }

    /// The same queries read the same from the same state.
    proof fn lemma_reads_settled(
        &self,
        x: Tensor<3>,
        p1: Projection,
        s1: Tensor<4>,
        o1: Tensor<4>,
        p2: Projection,
        s2: Tensor<4>,
        o2: Tensor<4>,
        b: int,
        t: int,
    )
        requires
            settled(),
            self.wf(),
            self.groups_values(),
            self.projects(x, p1),
            self.projects(x, p2),
            self.projection_shaped(p1, x.dims@[0] as int, x.dims@[1] as int),
            self.projection_shaped(p2, x.dims@[0] as int, x.dims@[1] as int),
            self.state_shaped(s1, x.dims@[0] as int),
            self.state_shaped(s2, x.dims@[0] as int),
            reads(p1, s1, o1),
            reads(p2, s2, o2),
            o1.dims@ == p1.v.dims@,
            o2.dims@ == p2.v.dims@,
            same_state(s1, b, s2, b),
            0 <= b < x.dims@[0],
            0 <= t < x.dims@[1],
        ensures
            self.same_outputs(o1, o2, b, t),
    {
        self.law_projection_is_settled(x, p1, p2, b, t);
        let i1 = inputs_at(p1, b, t);
        let i2 = inputs_at(p2, b, t);
        let f = |h: int, c: int| o1.at(b, h, t, c);
        let g = |h: int, c: int| o2.at(b, h, t, c);
        assert forall|h: int, j: int|
            0 <= h < self.n_v_heads && 0 <= j < self.v_head_dim implies #[trigger] f(h, j)
            == #[trigger] g(h, j) by {
            assert(o1.has(b, h, t, j) && o2.has(b, h, t, j));
            assert(p1.q.row(b, h, t) =~= p2.q.row(b, h, t)) by {
                assert forall|i: int| 0 <= i < self.head_dim implies p1.q.row(b, h, t)[i]
                    == p2.q.row(b, h, t)[i] by {
                    assert((i1.q)(h, i) == (i2.q)(h, i));
                }
            }
            assert(s1.col(b, h, j) =~= s2.col(b, h, j)) by {
                assert forall|i: int| 0 <= i < self.head_dim implies s1.col(b, h, j)[i] == s2.col(
                    b,
                    h,
                    j,
                )[i] by {
                    assert(s1.at(b, h, i, j) == s2.at(b, h, i, j));
                }
            }
            assert(matmul_gives(p1.q.row(b, h, t), s1.col(b, h, j), o1.at(b, h, t, j)));
            assert(matmul_gives(p2.q.row(b, h, t), s2.col(b, h, j), o2.at(b, h, t, j)));
        }
    }

    /// A missing state means the state of zeros: a pass without a state and a pass from
    /// zeros give the same outputs and states with the same numbers.
    pub proof fn law_no_state_is_zeros(
        &self,
        x: Tensor<3>,
        update_state: bool,
        s: Tensor<4>,
        y1: Tensor<3>,
        last1: Tensor<4>,
        zeros: Tensor<4>,
        y2: Tensor<3>,
        last2: Tensor<4>,
    )
        requires
            settled(),
            self.wf(),
            self.groups_values(),
            self.starts(None, x.dims@[0] as int, s),
            self.forwards(x, s, update_state, y1, last1),
            self.state_shaped(zeros, x.dims@[0] as int),
            forall|b: int, h: int, i: int, j: int|
                zeros.has(b, h, i, j) ==> #[trigger] zeros.at(b, h, i, j) == 0,
            self.forwards(x, zeros, update_state, y2, last2),
        ensures
            forall|b: int, t: int|
                0 <= b < x.dims@[0] && 0 <= t < x.dims@[1] ==> #[trigger] y1.row(b, t) == y2.row(
                    b,
                    t,
                ),
            forall|b: int| 0 <= b < x.dims@[0] ==> #[trigger] same_state(last1, b, last2, b),
    {
        assert forall|b: int| 0 <= b < x.dims@[0] implies #[trigger] same_state(s, b, zeros, b) by {
            assert forall|h: int, i: int, j: int|
                0 <= h < s.dims@[1] && 0 <= i < s.dims@[2] && 0 <= j < s.dims@[3] implies #[trigger] s.at(
                b,
                h,
                i,
                j,
            ) == #[trigger] zeros.at(b, h, i, j) by {
                assert(s.has(b, h, i, j) && zeros.has(b, h, i, j));
            }
        }
        self.law_forward_is_settled(x, update_state, s, y1, last1, zeros, y2, last2);
    }
}

/// The state after a step does not depend on the query: two steps that differ in it alone
/// leave the same numbers.
pub proof fn law_step_state_ignores_query(
    state: Tensor<4>,
    decay: Tensor<2>,
    k: Tensor<3>,
    v: Tensor<3>,
    beta: u32,
    q1: Tensor<3>,
    next1: Tensor<4>,
    out1: Tensor<3>,
    q2: Tensor<3>,
    next2: Tensor<4>,
    out2: Tensor<3>,
    b: int,
    h: int,
    i: int,
    j: int,
)
    requires
        settled(),
        column_steps(state, decay, q1, k, v, beta, next1, out1, b, h, j),
        column_steps(state, decay, q2, k, v, beta, next2, out2, b, h, j),
        0 <= i < state.dims@[2],
    ensures
        next1.at(b, h, i, j) == next2.at(b, h, i, j),
{
    assert(column_writes(state, decay, k, v, beta, next1, b, h, j));
    assert(column_writes(state, decay, k, v, beta, next2, b, h, j));
}

impl KdaModule {
    /// The activations of a short convolution depend on a token and the three before it, not
    /// on where in a sequence they stand: two sequences that agree on four tokens have the
    /// same activation at the last of them.
    pub proof fn law_convolution_shifts(
        &self,
        conv: Tensor<2>,
        x1: Tensor<3>,
        y1: Tensor<3>,
        b1: int,
        t1: int,
        x2: Tensor<3>,
        y2: Tensor<3>,
        b2: int,
        t2: int,
        c: int,
    )
        requires
            settled(),
            self.activates(Some(conv), x1, y1),
            self.activates(Some(conv), x2, y2),
            x1.has(b1, t1, c),
            x2.has(b2, t2, c),
            t1 >= 3,
            t2 >= 3,
            x1.at(b1, t1 - 3, c) == x2.at(b2, t2 - 3, c),
            x1.at(b1, t1 - 2, c) == x2.at(b2, t2 - 2, c),
            x1.at(b1, t1 - 1, c) == x2.at(b2, t2 - 1, c),
            x1.at(b1, t1, c) == x2.at(b2, t2, c),
        ensures
            y1.at(b1, t1, c) == y2.at(b2, t2, c),
    {
        let w1 = conv_window(x1, b1, t1, c);
        let w2 = conv_window(x2, b2, t2, c);
        assert(w1 =~= seq![
            x1.at(b1, t1 - 3, c),
            x1.at(b1, t1 - 2, c),
            x1.at(b1, t1 - 1, c),
            x1.at(b1, t1, c),
        ]);
        assert(w2 =~= w1);
        assert(conv_gives(w1, conv.row(c), y1.at(b1, t1, c)));
        assert(conv_gives(w2, conv.row(c), y2.at(b2, t2, c)));
        lemma_silu(tap_sum(w1, conv.row(c)), y1.at(b1, t1, c), y2.at(b2, t2, c));
    }
}

impl KdaDecay {
    /// `alpha` holds decays that head `h` with the log-scale `a_log` may have for the
    /// channels `x` of one token.
    pub open spec fn head_decays(
        &self,
        x: Seq<u32>,
        a_log: u32,
        h: int,
        alpha: spec_fn(int) -> u32,
    ) -> bool {
        exists|u: Seq<u32>, z: Seq<u32>, scale: u32|
            {
                &&& #[trigger] maps_row(self.w_up, x, u)
                &&& #[trigger] maps_row(self.w_down, u, z)
                &&& #[trigger] exp_gives(a_log, scale)
                &&& forall|c: int|
                    0 <= c < self.head_dim() ==> self.decays_to(
                        z[h * self.head_dim() + c],
                        scale,
                        h,
                        c,
                        #[trigger] alpha(c),
                    )
            }
    }

    /// `alpha` is a decay of channel `c` of head `h` for the low-rank product `z` and the
    /// scale of the head.
    pub open spec fn decays_to(&self, z: u32, scale: u32, h: int, c: int, alpha: u32) -> bool {
        let logit = f32_add(z, self.b_alpha.at(h * self.head_dim() + c));
        exists|g: u32| #[trigger]
            log_decay_gives(self.decay_fn, logit, scale, narrowed(self.g_min.bits), g)
                && exp_gives(g, alpha)
    }

    /// The decay of a head at a token is what the head may have for that token of that
    /// batch row and its own log-scale, beside the shared weights.
    pub proof fn law_decay_by_head(&self, x: Tensor<3>, alpha: Tensor<4>, b: int, t: int, h: int)
        requires
            self.wf(),
            self.decays(x, alpha),
            0 <= b < x.dims@[0],
            0 <= t < x.dims@[1],
            0 <= h < self.a_log.dims@[0],
        ensures
            self.head_decays(
                x.row(b, t),
                self.a_log.at(h, 0),
                h,
                |c: int| alpha.at(b, t, h, c),
            ),
    {
        let (u, z, a) = choose|u: Tensor<3>, z: Tensor<3>, a: Seq<u32>|
            {
                &&& #[trigger] self.w_up.maps(x, u)
                &&& #[trigger] self.w_down.maps(u, z)
                &&& #[trigger] self.scales(a)
                &&& forall|b: int, t: int, h: int, c: int|
                    alpha.has(b, t, h, c) ==> self.channel_decays(
                        z,
                        a,
                        b,
                        t,
                        h,
                        c,
                        #[trigger] alpha.at(b, t, h, c),
                    )
            };
        lemma_maps_row(self.w_up, x, u, b, t);
        lemma_maps_row(self.w_down, u, z, b, t);
        assert(exp_gives(self.a_log.at(h, 0), a[h]));
        let f = |c: int| alpha.at(b, t, h, c);
        let row = z.row(b, t);
        assert forall|c: int| 0 <= c < self.head_dim() implies self.decays_to(
            row[h * self.head_dim() + c],
            a[h],
            h,
            c,
            #[trigger] f(c),
        ) by {
            assert(alpha.has(b, t, h, c));
            assert(self.channel_decays(z, a, b, t, h, c, alpha.at(b, t, h, c)));
            lemma_block(h, c, self.a_log.dims@[0] as int, self.head_dim());
            assert(row[h * self.head_dim() + c] == z.at(b, t, h * self.head_dim() + c));
        }
    }

    /// Log-scales are per head, and a token's decay depends on that token of that batch row
    /// alone: two decays that differ in the log-scales of other heads, on inputs that agree
    /// on a token, agree on it.
    pub proof fn law_decay_is_per_head(
        &self,
        x1: Tensor<3>,
        alpha1: Tensor<4>,
        b1: int,
        t1: int,
        other: KdaDecay,
        x2: Tensor<3>,
        alpha2: Tensor<4>,
        b2: int,
        t2: int,
        h: int,
        c: int,
    )
        requires
            settled(),
            self.wf(),
            other.wf(),
            other.w_up == self.w_up,
            other.w_down == self.w_down,
            other.b_alpha == self.b_alpha,
            other.g_min == self.g_min,
            other.decay_fn == self.decay_fn,
            other.a_log.dims@ == self.a_log.dims@,
            0 <= h < self.a_log.dims@[0],
            other.a_log.at(h, 0) == self.a_log.at(h, 0),
            0 <= c < self.head_dim(),
            self.decays(x1, alpha1),
            other.decays(x2, alpha2),
            0 <= b1 < x1.dims@[0],
            0 <= t1 < x1.dims@[1],
            0 <= b2 < x2.dims@[0],
            0 <= t2 < x2.dims@[1],
            x1.row(b1, t1) == x2.row(b2, t2),
        ensures
            alpha1.at(b1, t1, h, c) == alpha2.at(b2, t2, h, c),
    {
        self.law_decay_by_head(x1, alpha1, b1, t1, h);
        other.law_decay_by_head(x2, alpha2, b2, t2, h);
        let x = x1.row(b1, t1);
        let a_log = self.a_log.at(h, 0);
        let n = self.head_dim();
        let f1 = |c: int| alpha1.at(b1, t1, h, c);
        let f2 = |c: int| alpha2.at(b2, t2, h, c);
        let (u1, z1, s1) = choose|u: Seq<u32>, z: Seq<u32>, scale: u32|
            {
                &&& #[trigger] maps_row(self.w_up, x, u)
                &&& #[trigger] maps_row(self.w_down, u, z)
                &&& #[trigger] exp_gives(a_log, scale)
                &&& forall|c: int|
                    0 <= c < n ==> self.decays_to(z[h * n + c], scale, h, c, #[trigger] f1(c))
            };
        let (u2, z2, s2) = choose|u: Seq<u32>, z: Seq<u32>, scale: u32|
            {
                &&& #[trigger] maps_row(other.w_up, x, u)
                &&& #[trigger] maps_row(other.w_down, u, z)
                &&& #[trigger] exp_gives(a_log, scale)
                &&& forall|c: int|
                    0 <= c < n ==> other.decays_to(z[h * n + c], scale, h, c, #[trigger] f2(c))
            };
        lemma_map(self.w_up, x, u1, u2);
        lemma_map(self.w_down, u1, z1, z2);
        assert(s1 == s2);
        let z = z1[h * n + c];
        assert(self.decays_to(z, s1, h, c, f1(c)));
        assert(other.decays_to(z, s1, h, c, f2(c)));
        let logit = f32_add(z, self.b_alpha.at(h * n + c));
        let floor = narrowed(self.g_min.bits);
        let g1 = choose|g: u32| #[trigger]
            log_decay_gives(self.decay_fn, logit, s1, floor, g) && exp_gives(g, f1(c));
        let g2 = choose|g: u32| #[trigger]
            log_decay_gives(self.decay_fn, logit, s1, floor, g) && exp_gives(g, f2(c));
        lemma_log_decay(self.decay_fn, logit, s1, floor, g1, g2);
    }

    /// Under the unbounded mapping the floor plays no part: decays that differ in it alone
    /// give the same decays for the same input.
    pub proof fn law_softplus_floor_is_unused(
        &self,
        other: KdaDecay,
        x: Tensor<3>,
        alpha1: Tensor<4>,
        alpha2: Tensor<4>,
    )
        requires
            settled(),
            self.wf(),
            self.decay_fn == DecayFn::Softplus,
            other == (KdaDecay { g_min: other.g_min, ..*self }),
            self.decays(x, alpha1),
            other.decays(x, alpha2),
        ensures
            alpha1.dims@ == alpha2.dims@,
            forall|b: int, t: int, h: int, c: int|
                alpha1.has(b, t, h, c) ==> #[trigger] alpha1.at(b, t, h, c) == alpha2.at(
                    b,
                    t,
                    h,
                    c,
                ),
    {
        law_softplus_ignores_floor(*self, other, x, alpha2);
        assert(alpha1.dims@ =~= alpha2.dims@);
        assert forall|b: int, t: int, h: int, c: int|
            alpha1.has(b, t, h, c) implies #[trigger] alpha1.at(b, t, h, c) == alpha2.at(
            b,
            t,
            h,
            c,
        ) by {
            self.law_decay_is_per_head(x, alpha1, b, t, *self, x, alpha2, b, t, h, c);
        }
    }
}

} // verus!
