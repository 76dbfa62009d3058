//! Decoding is autoregressive: a layer without short convolutions takes one token at a
//! time, and the state is all that it keeps between them.
use crate::backend::{
    exp_gives, f32_add, f32_mul, l2_gives, ln_gives, matmul_gives, mean_gives, sigmoid_gives,
    silu_gives, squares, sum_gives,
};
use crate::calculus::f32_calculus;
use crate::config::GateMode;
use crate::decay::{log_decay_gives, KdaDecay};
use crate::decode::{decayed, decodes, token_column, token_decays, token_steps, traces, weighted};
use crate::float::narrowed;
use crate::layer::KdaModule;
use crate::linear::Linear;
use crate::output::gated_norm;
use crate::ops::{heads_of, strengths_of};
use crate::projection::{logarithms, normalizes, repeats_heads, sigmoids, Projection, L2_EPS};
use crate::recurrence::{f32_arith, rewritten};
use crate::tensor::{lemma_block, Tensor};
use vstd::prelude::*;

verus! {

/// What one token of one batch gives the recurrence, by head and channel.
pub struct TokenInputs {
    pub q: spec_fn(int, int) -> u32,
    pub k: spec_fn(int, int) -> u32,
    pub v: spec_fn(int, int) -> u32,
    pub g: spec_fn(int, int) -> u32,
    /// Write strength over the key channels.
    pub beta_k: spec_fn(int, int) -> u32,
    /// Write strength over the value channels.
    pub beta: spec_fn(int, int) -> u32,
    pub gate: spec_fn(int, int) -> u32,
}

/// `y` is what a linear map may give for the channels `x` of one token.
pub open spec fn maps_row(map: Linear, x: Seq<u32>, y: Seq<u32>) -> bool {
    &&& y.len() == map.weight.dims@[1]
    &&& forall|c: int|
        0 <= c < y.len() ==> matmul_gives(x, map.weight.col(c), #[trigger] y[c])
}

/// `y` holds SiLU values that `x` may have.
pub open spec fn silu_row(x: Seq<u32>, y: Seq<u32>) -> bool {
    &&& y.len() == x.len()
    &&& forall|c: int| 0 <= c < y.len() ==> silu_gives(x[c], #[trigger] y[c])
}

/// `y` holds logistic values that `x` may have.
pub open spec fn sigmoid_row(x: Seq<u32>, y: Seq<u32>) -> bool {
    &&& y.len() == x.len()
    &&& forall|c: int| 0 <= c < y.len() ==> sigmoid_gives(x[c], #[trigger] y[c])
}

/// `g` is a logarithm of a decay that channel `c` of head `h` may have, given the low-rank
/// product `z` and the scales `a`.
pub open spec fn token_log_decay(
    decay: KdaDecay,
    z: Seq<u32>,
    a: Seq<u32>,
    h: int,
    c: int,
    g: u32,
) -> bool {
    let n = h * decay.head_dim() + c;
    exists|first: u32, alpha: u32|
        {
            &&& #[trigger] log_decay_gives(
                decay.decay_fn,
                f32_add(z[n], decay.b_alpha.at(n)),
                a[h],
                narrowed(decay.g_min.bits),
                first,
            )
            &&& #[trigger] exp_gives(first, alpha)
            &&& ln_gives(alpha, g)
        }
}

/// The products of a decayed column with the key of one token.
pub open spec fn token_products(
    s: Tensor<4>,
    d: spec_fn(int, int) -> u32,
    k: spec_fn(int, int) -> u32,
    dk: nat,
    b: int,
    h: int,
    j: int,
) -> Seq<u32> {
    Seq::new(dk, |i: int| f32_mul(f32_mul(s.at(b, h, i, j), d(h, i)), k(h, i)))
}

/// The products of a column with the query of one token.
pub open spec fn token_reads(
    s: Tensor<4>,
    q: spec_fn(int, int) -> u32,
    dk: nat,
    b: int,
    h: int,
    j: int,
) -> Seq<u32> {
    Seq::new(dk, |i: int| f32_mul(s.at(b, h, i, j), q(h, i)))
}

/// The channels of head `h`.
pub open spec fn head_row(o: spec_fn(int, int) -> u32, n: nat, h: int) -> Seq<u32> {
    Seq::new(n, |c: int| o(h, c))
}

impl KdaModule {
    /// `r` holds queries or keys that the layer may give for one token.
    pub open spec fn token_keyed(
        &self,
        map: Linear,
        x: Seq<u32>,
        r: spec_fn(int, int) -> u32,
    ) -> bool {
        exists|raw: Seq<u32>, act: Seq<u32>, unit: Seq<u32>|
            {
                &&& #[trigger] maps_row(map, x, raw)
                &&& #[trigger] silu_row(raw, act)
                &&& #[trigger] l2_gives(act, L2_EPS, unit)
                &&& forall|h: int, c: int|
                    0 <= h < self.heads() && 0 <= c < self.head_dim ==> #[trigger] r(h, c)
                        == unit[(h / self.group()) * self.head_dim + c]
            }
    }

    /// `r` holds values that the layer may give for one token.
    pub open spec fn token_valued(&self, x: Seq<u32>, r: spec_fn(int, int) -> u32) -> bool {
        exists|raw: Seq<u32>, act: Seq<u32>|
            {
                &&& #[trigger] maps_row(self.v_proj, x, raw)
                &&& #[trigger] silu_row(raw, act)
                &&& forall|h: int, c: int|
                    0 <= h < self.n_v_heads && 0 <= c < self.v_head_dim ==> #[trigger] r(h, c)
                        == act[h * self.v_head_dim + c]
            }
    }

    /// `r` holds log-decays that the layer may give for one token.
    pub open spec fn token_decayed(&self, x: Seq<u32>, r: spec_fn(int, int) -> u32) -> bool {
        exists|u: Seq<u32>, z: Seq<u32>, a: Seq<u32>|
            {
                &&& #[trigger] maps_row(self.decay.w_up, x, u)
                &&& #[trigger] maps_row(self.decay.w_down, u, z)
                &&& #[trigger] self.decay.scales(a)
                &&& forall|h: int, c: int|
                    0 <= h < self.heads() && 0 <= c < self.head_dim ==> token_log_decay(
                        self.decay,
                        z,
                        a,
                        h / self.group(),
                        c,
                        #[trigger] r(h, c),
                    )
            }
    }

    /// `r` holds the write strength that the layer may give for one token, over this many
    /// channels.
    pub open spec fn token_strengthened(
        &self,
        x: Seq<u32>,
        channels: int,
        r: spec_fn(int, int) -> u32,
    ) -> bool {
        exists|logit: Seq<u32>, beta: Seq<u32>|
            {
                &&& #[trigger] maps_row(self.beta_proj, x, logit)
                &&& #[trigger] sigmoid_row(logit, beta)
                &&& forall|h: int, c: int|
                    0 <= h < self.heads() && 0 <= c < channels ==> #[trigger] r(h, c)
                        == beta[h / self.group()]
            }
    }

    /// `y` holds gate logits that the layer may give for one token.
    pub open spec fn token_gate_logits(&self, x: Seq<u32>, y: Seq<u32>) -> bool {
        match self.gate {
            GateMode::FullRank => maps_row(self.o_gate.unwrap(), x, y),
            GateMode::LowRank => exists|u: Seq<u32>| #[trigger]
                maps_row(self.o_gate_up.unwrap(), x, u) && maps_row(
                    self.o_gate_down.unwrap(),
                    u,
                    y,
                ),
        }
    }

    /// `r` holds output gates that the layer may give for one token.
    pub open spec fn token_gated(&self, x: Seq<u32>, r: spec_fn(int, int) -> u32) -> bool {
        exists|logit: Seq<u32>, s: Seq<u32>|
            {
                &&& #[trigger] self.token_gate_logits(x, logit)
                &&& #[trigger] sigmoid_row(logit, s)
                &&& forall|h: int, c: int|
                    0 <= h < self.n_v_heads && 0 <= c < self.v_head_dim ==> #[trigger] r(h, c)
                        == s[h * self.v_head_dim + c]
            }
    }

    /// `p` is what the layer may give the recurrence for one token.
    pub open spec fn token_projects(&self, x: Seq<u32>, p: TokenInputs) -> bool {
        &&& self.token_keyed(self.q_proj, x, p.q)
        &&& self.token_keyed(self.k_proj, x, p.k)
        &&& self.token_valued(x, p.v)
        &&& self.token_decayed(x, p.g)
        &&& self.token_strengthened(x, self.head_dim as int, p.beta_k)
        &&& self.token_strengthened(x, self.v_head_dim as int, p.beta)
        &&& self.token_gated(x, p.gate)
    }

    /// Value channel `j` of head `h` of batch `b` takes the step of one token.
    pub open spec fn token_entry(
        &self,
        s: Tensor<4>,
        p: TokenInputs,
        d: spec_fn(int, int) -> u32,
        next: Tensor<4>,
        o: spec_fn(int, int) -> u32,
        b: int,
        h: int,
        j: int,
    ) -> bool {
        let dk = self.head_dim as nat;
        &&& exists|r: u32|
            {
                &&& #[trigger] sum_gives(token_products(s, d, p.k, dk, b, h, j), r)
                &&& forall|i: int|
                    0 <= i < dk ==> #[trigger] next.at(b, h, i, j) == rewritten(
                        f32_arith(),
                        f32_mul(s.at(b, h, i, j), d(h, i)),
                        (p.k)(h, i),
                        (p.v)(h, j),
                        (p.beta)(h, j),
                        r,
                    )
            }
        &&& sum_gives(token_reads(next, p.q, dk, b, h, j), o(h, j))
    }

    /// The channels of head `h` in `merged` are the normalized and gated outputs `o`.
    pub open spec fn token_head_outputs(
        &self,
        o: spec_fn(int, int) -> u32,
        gate: spec_fn(int, int) -> u32,
        merged: Seq<u32>,
        h: int,
    ) -> bool {
        exists|m: u32|
            {
                &&& #[trigger] mean_gives(squares(head_row(o, self.v_head_dim as nat, h)), m)
                &&& forall|c: int|
                    0 <= c < self.v_head_dim ==> #[trigger] merged[h * self.v_head_dim + c]
                        == gated_norm(
                        f32_calculus(),
                        o(h, c),
                        m,
                        narrowed(self.norm_eps.bits),
                        gate(h, c),
                        self.o_norm_w.at(c),
                    )
            }
    }

    /// `merged` holds the normalized and gated outputs of all heads.
    pub open spec fn token_merges(
        &self,
        o: spec_fn(int, int) -> u32,
        gate: spec_fn(int, int) -> u32,
        merged: Seq<u32>,
    ) -> bool {
        &&& merged.len() == self.values()
        &&& forall|h: int|
            0 <= h < self.n_v_heads ==> #[trigger] self.token_head_outputs(o, gate, merged, h)
    }

    /// `y` is an output that the layer may give for the heads' outputs `o` of one token.
    pub open spec fn token_outputs(
        &self,
        o: spec_fn(int, int) -> u32,
        gate: spec_fn(int, int) -> u32,
        y: Seq<u32>,
    ) -> bool {
        exists|merged: Seq<u32>| #[trigger]
            self.token_merges(o, gate, merged) && maps_row(self.o_proj, merged, y)
    }

    /// `d` holds decays that the log-decays `g` of one token may have.
    pub open spec fn token_exp(
        &self,
        g: spec_fn(int, int) -> u32,
        d: spec_fn(int, int) -> u32,
    ) -> bool {
        forall|h: int, i: int|
            0 <= h < self.n_v_heads && 0 <= i < self.head_dim ==> exp_gives(
                g(h, i),
                #[trigger] d(h, i),
            )
    }

    /// One token of batch `b` takes the state `s` to `next` and gives the heads' outputs
    /// `o`.
    pub open spec fn token_recurs(
        &self,
        s: Tensor<4>,
        p: TokenInputs,
        next: Tensor<4>,
        o: spec_fn(int, int) -> u32,
        b: int,
    ) -> bool {
        exists|d: spec_fn(int, int) -> u32|
            {
                &&& #[trigger] self.token_exp(p.g, d)
                &&& forall|h: int, j: int|
                    0 <= h < self.n_v_heads && 0 <= j < self.v_head_dim
                        ==> #[trigger] self.token_entry(s, p, d, next, o, b, h, j)
            }
    }

    /// One token of batch `b`: the layer may take the state `s` to `next` and answer the
    /// channels `x` with `y`.
    pub open spec fn token_batch(
        &self,
        x: Seq<u32>,
        s: Tensor<4>,
        next: Tensor<4>,
        y: Seq<u32>,
        b: int,
    ) -> bool {
        exists|p: TokenInputs, o: spec_fn(int, int) -> u32|
            {
                &&& #[trigger] self.token_projects(x, p)
                &&& #[trigger] self.token_recurs(s, p, next, o, b)
                &&& self.token_outputs(o, p.gate, y)
            }
    }

    /// One token of all batches.
    pub open spec fn token_forwards(
        &self,
        x: Seq<Seq<u32>>,
        s: Tensor<4>,
        next: Tensor<4>,
        y: Seq<Seq<u32>>,
    ) -> bool {
        &&& next.wf()
        &&& next.dims@ == s.dims@
        &&& y.len() == x.len()
        &&& forall|b: int|
            0 <= b < x.len() ==> #[trigger] self.token_batch(x[b], s, next, y[b], b)
    }

    /// Token after token, `trace` holding the states before, between and after them.
    pub open spec fn streams_along(
        &self,
        x: Seq<Seq<Seq<u32>>>,
        y: Seq<Seq<Seq<u32>>>,
        trace: Seq<Tensor<4>>,
    ) -> bool {
        forall|n: int|
            0 <= n < x.len() ==> self.token_forwards(
                x[n],
                #[trigger] trace[n],
                trace[n + 1],
                y[n],
            )
    }

    /// Token after token, the layer may take the state `s` to `last` and answer the tokens
    /// `x` with `y`.
    pub open spec fn streams(
        &self,
        x: Seq<Seq<Seq<u32>>>,
        s: Tensor<4>,
        last: Tensor<4>,
        y: Seq<Seq<Seq<u32>>>,
    ) -> bool {
        &&& y.len() == x.len()
        &&& exists|trace: Seq<Tensor<4>>|
            {
                &&& trace.len() == x.len() + 1
                &&& trace[0] == s
                &&& trace[x.len() as int] == last
                &&& #[trigger] self.streams_along(x, y, trace)
            }
    }
}

/// The channels of every batch at token `t`.
pub open spec fn token_of(x: Tensor<3>, t: int) -> Seq<Seq<u32>> {
    Seq::new(x.dims@[0] as nat, |b: int| x.row(b, t))
}

/// The tokens of a sequence, one after the other.
pub open spec fn tokens_of(x: Tensor<3>) -> Seq<Seq<Seq<u32>>> {
    Seq::new(x.dims@[1] as nat, |t: int| token_of(x, t))
}

/// What token `t` of batch `b` gives the recurrence.
pub open spec fn inputs_at(p: Projection, b: int, t: int) -> TokenInputs {
    TokenInputs {
        q: |h: int, c: int| p.q.at(b, h, t, c),
        k: |h: int, c: int| p.k.at(b, h, t, c),
        v: |h: int, c: int| p.v.at(b, h, t, c),
        g: |h: int, c: int| p.g.at(b, h, t, c),
        beta_k: |h: int, c: int| p.beta_k.at(b, h, t, c),
        beta: |h: int, c: int| p.beta_v.at(b, h, t, c),
        gate: |h: int, c: int| p.gate.at(b, h, t, c),
    }
}

/// A linear map works on every token by itself.
pub(crate) proof fn lemma_maps_row(map: Linear, x: Tensor<3>, y: Tensor<3>, b: int, t: int)
    requires
        map.maps(x, y),
        0 <= b < x.dims@[0],
        0 <= t < x.dims@[1],
    ensures
        maps_row(map, x.row(b, t), y.row(b, t)),
{
    assert forall|c: int| 0 <= c < y.row(b, t).len() implies matmul_gives(
        x.row(b, t),
        map.weight.col(c),
        #[trigger] y.row(b, t)[c],
    ) by {
        assert(y.has(b, t, c));
        assert(matmul_gives(x.row(b, t), map.weight.col(c), y.at(b, t, c)));
    }
}

/// The logistic function works on every token by itself.
pub(crate) proof fn lemma_sigmoid_row(x: Tensor<3>, y: Tensor<3>, b: int, t: int)
    requires
        sigmoids(x, y),
        0 <= b < x.dims@[0],
        0 <= t < x.dims@[1],
    ensures
        sigmoid_row(x.row(b, t), y.row(b, t)),
{
    assert forall|c: int| 0 <= c < y.row(b, t).len() implies sigmoid_gives(
        x.row(b, t)[c],
        #[trigger] y.row(b, t)[c],
    ) by {
        assert(y.has(b, t, c));
        assert(sigmoid_gives(x.at(b, t, c), y.at(b, t, c)));
    }
}

impl KdaModule {
    pub(crate) proof fn lemma_token_keyed(
        &self,
        map: Linear,
        x: Tensor<3>,
        r: Tensor<4>,
        b: int,
        t: int,
    )
        requires
            self.wf(),
            self.keyed(map, None, x, r),
            map.shaped(self.d_model as int, self.keys()),
            0 <= b < x.dims@[0],
            0 <= t < x.dims@[1],
        ensures
            self.token_keyed(map, x.row(b, t), |h: int, c: int| r.at(b, h, t, c)),
    {
        let (raw, act, unit) = choose|raw: Tensor<3>, act: Tensor<3>, unit: Tensor<3>|
            {
                &&& #[trigger] map.maps(x, raw)
                &&& #[trigger] self.activates(None, raw, act)
                &&& #[trigger] normalizes(act, unit)
                &&& heads_of(unit, self.heads(), self.group(), self.head_dim as int, r)
            };
        self.lemma_groups();
        lemma_maps_row(map, x, raw, b, t);
        assert(silu_row(raw.row(b, t), act.row(b, t))) by {
            assert forall|c: int| 0 <= c < act.row(b, t).len() implies silu_gives(
                raw.row(b, t)[c],
                #[trigger] act.row(b, t)[c],
            ) by {
                assert(act.has(b, t, c));
                assert(silu_gives(raw.at(b, t, c), act.at(b, t, c)));
            }
        }
        assert(l2_gives(act.row(b, t), L2_EPS, unit.row(b, t)));
        let f = |h: int, c: int| r.at(b, h, t, c);
        assert forall|h: int, c: int|
            0 <= h < self.heads() && 0 <= c < self.head_dim implies #[trigger] f(h, c)
            == unit.row(b, t)[(h / self.group()) * self.head_dim + c] by {
            assert(r.has(b, h, t, c));
            self.lemma_group_channel(h, c);
        }
    }

    pub(crate) proof fn lemma_token_valued(&self, x: Tensor<3>, r: Tensor<4>, b: int, t: int)
        requires
            self.wf(),
            self.valued(x, r),
            self.v_conv_w is None,
            0 <= b < x.dims@[0],
            0 <= t < x.dims@[1],
        ensures
            self.token_valued(x.row(b, t), |h: int, c: int| r.at(b, h, t, c)),
    {
        let (raw, act) = choose|raw: Tensor<3>, act: Tensor<3>|
            {
                &&& #[trigger] self.v_proj.maps(x, raw)
                &&& #[trigger] self.activates(self.v_conv_w, raw, act)
                &&& heads_of(act, self.n_v_heads as int, 1, self.v_head_dim as int, r)
            };
        lemma_maps_row(self.v_proj, x, raw, b, t);
        assert(silu_row(raw.row(b, t), act.row(b, t))) by {
            assert forall|c: int| 0 <= c < act.row(b, t).len() implies silu_gives(
                raw.row(b, t)[c],
                #[trigger] act.row(b, t)[c],
            ) by {
                assert(act.has(b, t, c));
                assert(silu_gives(raw.at(b, t, c), act.at(b, t, c)));
            }
        }
        let f = |h: int, c: int| r.at(b, h, t, c);
        assert forall|h: int, c: int|
            0 <= h < self.n_v_heads && 0 <= c < self.v_head_dim implies #[trigger] f(h, c)
            == act.row(b, t)[h * self.v_head_dim + c] by {
            assert(r.has(b, h, t, c));
            assert(h / 1 == h);
            lemma_block(h, c, self.n_v_heads as int, self.v_head_dim as int);
        }
    }

    pub(crate) proof fn lemma_token_decayed(&self, x: Tensor<3>, r: Tensor<4>, b: int, t: int)
        requires
            self.wf(),
            self.log_decayed(x, r),
            0 <= b < x.dims@[0],
            0 <= t < x.dims@[1],
        ensures
            self.token_decayed(x.row(b, t), |h: int, c: int| r.at(b, h, t, c)),
    {
        let (alpha, g) = choose|alpha: Tensor<4>, g: Tensor<4>|
            {
                &&& #[trigger] self.decay.decays(x, alpha)
                &&& #[trigger] logarithms(alpha, g)
                &&& repeats_heads(g, self.heads(), self.group(), r)
            };
        let (u, z, a) = choose|u: Tensor<3>, z: Tensor<3>, a: Seq<u32>|
            {
                &&& #[trigger] self.decay.w_up.maps(x, u)
                &&& #[trigger] self.decay.w_down.maps(u, z)
                &&& #[trigger] self.decay.scales(a)
                &&& forall|b: int, t: int, h: int, c: int|
                    alpha.has(b, t, h, c) ==> self.decay.channel_decays(
                        z,
                        a,
                        b,
                        t,
                        h,
                        c,
                        #[trigger] alpha.at(b, t, h, c),
                    )
            };
        self.lemma_decay_head_dim();
        lemma_maps_row(self.decay.w_up, x, u, b, t);
        lemma_maps_row(self.decay.w_down, u, z, b, t);
        let f = |h: int, c: int| r.at(b, h, t, c);
        assert forall|h: int, c: int|
            0 <= h < self.heads() && 0 <= c < self.head_dim implies token_log_decay(
            self.decay,
            z.row(b, t),
            a,
            h / self.group(),
            c,
            #[trigger] f(h, c),
        ) by {
            let k = h / self.group();
            self.lemma_group_channel(h, c);
            assert(r.has(b, h, t, c));
            assert(alpha.has(b, t, k, c));
            assert(g.has(b, t, k, c));
            let al = alpha.at(b, t, k, c);
            assert(self.decay.channel_decays(z, a, b, t, k, c, al));
            assert(ln_gives(al, g.at(b, t, k, c)));
            let n = k * self.decay.head_dim() + c;
            let first = choose|first: u32| #[trigger]
                log_decay_gives(
                    self.decay.decay_fn,
                    f32_add(z.at(b, t, n), self.decay.b_alpha.at(n)),
                    a[k],
                    narrowed(self.decay.g_min.bits),
                    first,
                ) && exp_gives(first, al);
            assert(z.row(b, t)[n] == z.at(b, t, n));
            assert(exp_gives(first, al));
        }
    }

    pub(crate) proof fn lemma_token_strengthened(
        &self,
        x: Tensor<3>,
        over_k: Tensor<4>,
        over_v: Tensor<4>,
        b: int,
        t: int,
    )
        requires
            self.wf(),
            self.strengthened(x, over_k, over_v),
            0 <= b < x.dims@[0],
            0 <= t < x.dims@[1],
        ensures
            self.token_strengthened(
                x.row(b, t),
                self.head_dim as int,
                |h: int, c: int| over_k.at(b, h, t, c),
            ),
            self.token_strengthened(
                x.row(b, t),
                self.v_head_dim as int,
                |h: int, c: int| over_v.at(b, h, t, c),
            ),
    {
        let (logit, beta) = choose|logit: Tensor<3>, beta: Tensor<3>|
            {
                &&& #[trigger] self.beta_proj.maps(x, logit)
                &&& #[trigger] sigmoids(logit, beta)
                &&& strengths_of(beta, self.heads(), self.group(), self.head_dim as int, over_k)
                &&& strengths_of(beta, self.heads(), self.group(), self.v_head_dim as int, over_v)
            };
        lemma_maps_row(self.beta_proj, x, logit, b, t);
        lemma_sigmoid_row(logit, beta, b, t);
        let f = |h: int, c: int| over_k.at(b, h, t, c);
        let g = |h: int, c: int| over_v.at(b, h, t, c);
        assert forall|h: int, c: int|
            0 <= h < self.heads() && 0 <= c < self.head_dim implies #[trigger] f(h, c)
            == beta.row(b, t)[h / self.group()] by {
            assert(over_k.has(b, h, t, c));
            self.lemma_group_channel(h, 0);
        }
        assert forall|h: int, c: int|
            0 <= h < self.heads() && 0 <= c < self.v_head_dim implies #[trigger] g(h, c)
            == beta.row(b, t)[h / self.group()] by {
            assert(over_v.has(b, h, t, c));
            self.lemma_group_channel(h, 0);
        }
    }

    pub(crate) proof fn lemma_token_gated(&self, x: Tensor<3>, r: Tensor<4>, b: int, t: int)
        requires
            self.wf(),
            self.gated(x, r),
            0 <= b < x.dims@[0],
            0 <= t < x.dims@[1],
        ensures
            self.token_gated(x.row(b, t), |h: int, c: int| r.at(b, h, t, c)),
    {
        let (logit, s) = choose|logit: Tensor<3>, s: Tensor<3>|
            {
                &&& #[trigger] self.gate_logits(x, logit)
                &&& #[trigger] sigmoids(logit, s)
                &&& heads_of(s, self.n_v_heads as int, 1, self.v_head_dim as int, r)
            };
        assert(self.token_gate_logits(x.row(b, t), logit.row(b, t))) by {
            match self.gate {
                GateMode::FullRank => {
                    lemma_maps_row(self.o_gate.unwrap(), x, logit, b, t);
                },
                GateMode::LowRank => {
                    let u = choose|u: Tensor<3>| #[trigger]
                        self.o_gate_up.unwrap().maps(x, u) && self.o_gate_down.unwrap().maps(
                            u,
                            logit,
                        );
                    lemma_maps_row(self.o_gate_up.unwrap(), x, u, b, t);
                    lemma_maps_row(self.o_gate_down.unwrap(), u, logit, b, t);
                },
            }
        }
        lemma_sigmoid_row(logit, s, b, t);
        let f = |h: int, c: int| r.at(b, h, t, c);
        assert forall|h: int, c: int|
            0 <= h < self.n_v_heads && 0 <= c < self.v_head_dim implies #[trigger] f(h, c)
            == s.row(b, t)[h * self.v_head_dim + c] by {
            assert(r.has(b, h, t, c));
            assert(h / 1 == h);
            lemma_block(h, c, self.n_v_heads as int, self.v_head_dim as int);
        }
    }

    /// A projection has the extents that the layer's dimensions ask for.
    pub(crate) proof fn lemma_projection_shaped(&self, x: Tensor<3>, p: Projection)
        requires
            self.wf(),
            self.projects(x, p),
        ensures
            self.projection_shaped(p, x.dims@[0] as int, x.dims@[1] as int),
    {
        self.lemma_decay_head_dim();
    }

    /// Without short convolutions, what a token gives the recurrence is what the layer may
    /// give for the channels of that token alone.
    pub proof fn law_projection_by_token(&self, x: Tensor<3>, p: Projection, b: int, t: int)
        requires
            self.wf(),
            !self.use_short_conv,
            self.projects(x, p),
            0 <= b < x.dims@[0],
            0 <= t < x.dims@[1],
        ensures
            self.token_projects(x.row(b, t), inputs_at(p, b, t)),
    {
        self.lemma_token_keyed(self.q_proj, x, p.q, b, t);
        self.lemma_token_keyed(self.k_proj, x, p.k, b, t);
        self.lemma_token_valued(x, p.v, b, t);
        self.lemma_token_decayed(x, p.g, b, t);
        self.lemma_token_strengthened(x, p.beta_k, p.beta_v, b, t);
        self.lemma_token_gated(x, p.gate, b, t);
    }

    /// A step of the recurrence, in terms of one token's inputs.
    pub(crate) proof fn lemma_token_recurs(
        &self,
        s: Tensor<4>,
        p: Projection,
        t: int,
        next: Tensor<4>,
        out: Tensor<4>,
        b: int,
    )
        requires
            self.groups_values(),
            self.state_shaped(s, p.v.dims@[0] as int),
            self.projection_shaped(p, p.v.dims@[0] as int, p.v.dims@[2] as int),
            token_steps(s, p, t, next, out),
            0 <= b < p.v.dims@[0],
        ensures
            self.token_recurs(
                s,
                inputs_at(p, b, t),
                next,
                |h: int, c: int| out.at(b, h, t, c),
                b,
            ),
    {
        let d = choose|d: Tensor<4>|
            {
                &&& #[trigger] token_decays(p, t, d)
                &&& forall|b: int, h: int, j: int|
                    0 <= b < s.dims@[0] && 0 <= h < s.dims@[1] && 0 <= j < s.dims@[3]
                        ==> #[trigger] token_column(s, p, t, d, next, out, b, h, j)
            };
        let q = inputs_at(p, b, t);
        let dd = |h: int, i: int| d.at(b, h, 0, i);
        let o = |h: int, c: int| out.at(b, h, t, c);
        assert(self.token_exp(q.g, dd)) by {
            assert forall|h: int, i: int|
                0 <= h < self.n_v_heads && 0 <= i < self.head_dim implies exp_gives(
                (q.g)(h, i),
                #[trigger] dd(h, i),
            ) by {
                assert(d.has(b, h, 0, i));
            }
        }
        assert forall|h: int, j: int|
            0 <= h < self.n_v_heads && 0 <= j < self.v_head_dim implies #[trigger] self.token_entry(
            s,
            q,
            dd,
            next,
            o,
            b,
            h,
            j,
        ) by {
            assert(token_column(s, p, t, d, next, out, b, h, j));
            let dk = self.head_dim as nat;
            let column = decayed(s, d, b, h, j);
            assert(weighted(column, p.k, b, h, t) =~= token_products(s, dd, q.k, dk, b, h, j));
            assert(weighted(next.col(b, h, j), p.q, b, h, t) =~= token_reads(
                next,
                q.q,
                dk,
                b,
                h,
                j,
            ));
            let r = choose|r: u32|
                {
                    &&& #[trigger] sum_gives(weighted(column, p.k, b, h, t), r)
                    &&& forall|i: int|
                        0 <= i < s.dims@[2] ==> #[trigger] next.at(b, h, i, j) == rewritten(
                            f32_arith(),
                            column[i],
                            p.k.at(b, h, t, i),
                            p.v.at(b, h, t, j),
                            p.beta_v.at(b, h, t, j),
                            r,
                        )
                };
            assert(sum_gives(token_products(s, dd, q.k, dk, b, h, j), r));
            assert forall|i: int| 0 <= i < dk implies #[trigger] next.at(b, h, i, j) == rewritten(
                f32_arith(),
                f32_mul(s.at(b, h, i, j), dd(h, i)),
                (q.k)(h, i),
                (q.v)(h, j),
                (q.beta)(h, j),
                r,
            ) by {
                assert(column[i] == f32_mul(s.at(b, h, i, j), dd(h, i)));
            }
        }
    }

    /// The output of a token, in terms of that token alone.
    pub(crate) proof fn lemma_token_outputs(
        &self,
        o: Tensor<4>,
        gate: Tensor<4>,
        y: Tensor<3>,
        b: int,
        t: int,
    )
        requires
            self.outputs(o, gate, y),
            o.dims@[1] == self.n_v_heads,
            o.dims@[3] == self.v_head_dim,
            0 <= b < o.dims@[0],
            0 <= t < o.dims@[2],
        ensures
            self.token_outputs(
                |h: int, c: int| o.at(b, h, t, c),
                |h: int, c: int| gate.at(b, h, t, c),
                y.row(b, t),
            ),
    {
        let merged = choose|merged: Tensor<3>| #[trigger]
            self.merges(o, gate, merged) && self.o_proj.maps(merged, y);
        lemma_maps_row(self.o_proj, merged, y, b, t);
        let f = |h: int, c: int| o.at(b, h, t, c);
        let g = |h: int, c: int| gate.at(b, h, t, c);
        let row = merged.row(b, t);
        assert forall|h: int| 0 <= h < self.n_v_heads implies #[trigger] self.token_head_outputs(
            f,
            g,
            row,
            h,
        ) by {
            assert(self.head_outputs(o, gate, merged, b, h, t));
            let m = choose|m: u32|
                {
                    &&& #[trigger] mean_gives(squares(o.row(b, h, t)), m)
                    &&& forall|c: int|
                        0 <= c < self.v_head_dim ==> #[trigger] merged.at(
                            b,
                            t,
                            h * self.v_head_dim + c,
                        ) == gated_norm(
                            f32_calculus(),
                            o.at(b, h, t, c),
                            m,
                            narrowed(self.norm_eps.bits),
                            gate.at(b, h, t, c),
                            self.o_norm_w.at(c),
                        )
                };
            assert(head_row(f, self.v_head_dim as nat, h) =~= o.row(b, h, t));
            assert forall|c: int| 0 <= c < self.v_head_dim implies #[trigger] row[h
                * self.v_head_dim + c] == gated_norm(
                f32_calculus(),
                f(h, c),
                m,
                narrowed(self.norm_eps.bits),
                g(h, c),
                self.o_norm_w.at(c),
            ) by {
                lemma_block(h, c, self.n_v_heads as int, self.v_head_dim as int);
                assert(row[h * self.v_head_dim + c] == merged.at(b, t, h * self.v_head_dim + c));
            }
        }
        assert(self.token_merges(f, g, row));
    }

    /// The states along a decoding pass keep their extents.
    pub(crate) proof fn lemma_trace_shaped(
        &self,
        p: Projection,
        trace: Seq<Tensor<4>>,
        out: Tensor<4>,
        b: int,
        n: int,
    )
        requires
            traces(p, 0, trace, out),
            0 <= n < trace.len(),
            self.state_shaped(trace[0], b),
        ensures
            self.state_shaped(trace[n], b),
        decreases n,
    {
        if n > 0 {
            self.lemma_trace_shaped(p, trace, out, b, n - 1);
            assert(token_steps(trace[n - 1], p, 0 + (n - 1), trace[n - 1 + 1], out));
        }
    }

    /// A decoding pass without short convolutions is a chain of single tokens: every token
    /// takes the state that the one before it left, and depends on nothing else of the
    /// sequence.
    pub proof fn law_decoding_is_autoregressive(
        &self,
        x: Tensor<3>,
        s: Tensor<4>,
        y: Tensor<3>,
        last: Tensor<4>,
    )
        requires
            self.wf(),
            self.groups_values(),
            !self.use_short_conv,
            self.state_shaped(s, x.dims@[0] as int),
            self.forwards(x, s, true, y, last),
        ensures
            self.streams(tokens_of(x), s, last, tokens_of(y)),
    {
        let (p, o) = choose|p: Projection, o: Tensor<4>|
            {
                &&& #[trigger] self.projects(x, p)
                &&& #[trigger] self.attends(p, s, true, o, last)
                &&& self.outputs(o, p.gate, y)
            };
        self.lemma_projection_shaped(x, p);
        let tokens = x.dims@[1] as int;
        let batches = x.dims@[0] as int;
        assert(decodes(p, 0, tokens, s, last, o));
        let trace = choose|trace: Seq<Tensor<4>>|
            {
                &&& trace.len() == tokens - 0 + 1
                &&& trace[0] == s
                &&& trace[tokens - 0] == last
                &&& #[trigger] traces(p, 0, trace, o)
            };
        let xs = tokens_of(x);
        let ys = tokens_of(y);
        assert forall|n: int| 0 <= n < xs.len() implies self.token_forwards(
            xs[n],
            #[trigger] trace[n],
            trace[n + 1],
            ys[n],
        ) by {
            self.lemma_trace_shaped(p, trace, o, batches, n);
            assert(token_steps(trace[n], p, 0 + n, trace[n + 1], o));
            assert forall|b: int| 0 <= b < xs[n].len() implies #[trigger] self.token_batch(
                xs[n][b],
                trace[n],
                trace[n + 1],
                ys[n][b],
                b,
            ) by {
                let q = inputs_at(p, b, n);
                let f = |h: int, c: int| o.at(b, h, n, c);
                self.law_projection_by_token(x, p, b, n);
                self.lemma_token_recurs(trace[n], p, n, trace[n + 1], o, b);
                self.lemma_token_outputs(o, p.gate, y, b, n);
                assert(xs[n][b] == x.row(b, n));
                assert(ys[n][b] == y.row(b, n));
                assert(self.token_projects(xs[n][b], q));
                assert(self.token_recurs(trace[n], q, trace[n + 1], f, b));
                assert(self.token_outputs(f, q.gate, ys[n][b]));
            }
        }
        assert(self.streams_along(xs, ys, trace));
    }

    /// Chains of tokens join: decoding some tokens and then, from the state they leave,
    /// others is decoding them in a row.
    pub proof fn law_streams_join(
        &self,
        x1: Seq<Seq<Seq<u32>>>,
        x2: Seq<Seq<Seq<u32>>>,
        s: Tensor<4>,
        between: Tensor<4>,
        last: Tensor<4>,
        y1: Seq<Seq<Seq<u32>>>,
        y2: Seq<Seq<Seq<u32>>>,
    )
        requires
            self.streams(x1, s, between, y1),
            self.streams(x2, between, last, y2),
        ensures
            self.streams(x1 + x2, s, last, y1 + y2),
    {
        let n1 = x1.len() as int;
        let n2 = x2.len() as int;
        let a = choose|a: Seq<Tensor<4>>|
            {
                &&& a.len() == x1.len() + 1
                &&& a[0] == s
                &&& a[x1.len() as int] == between
                &&& #[trigger] self.streams_along(x1, y1, a)
            };
        let b = choose|b: Seq<Tensor<4>>|
            {
                &&& b.len() == x2.len() + 1
                &&& b[0] == between
                &&& b[x2.len() as int] == last
                &&& #[trigger] self.streams_along(x2, y2, b)
            };
        let c = a + b.skip(1);
        let x = x1 + x2;
        let y = y1 + y2;
        assert forall|n: int| 0 <= n < x.len() implies self.token_forwards(
            x[n],
            #[trigger] c[n],
            c[n + 1],
            y[n],
        ) by {
            if n < n1 {
                assert(self.token_forwards(x1[n], a[n], a[n + 1], y1[n]));
            } else {
                let m = n - n1;
                assert(c[n] == b[m]);
                assert(self.token_forwards(x2[m], b[m], b[m + 1], y2[m]));
            }
        }
        assert(self.streams_along(x, y, c));
    }

    /// Decoding a sequence in two calls is decoding its tokens in a row, as one call on
    /// the whole sequence does.
    pub proof fn law_decoding_in_pieces(
        &self,
        x1: Tensor<3>,
        x2: Tensor<3>,
        s: Tensor<4>,
        between: Tensor<4>,
        last: Tensor<4>,
        y1: Tensor<3>,
        y2: Tensor<3>,
    )
        requires
            self.wf(),
            self.groups_values(),
            !self.use_short_conv,
            x2.dims@[0] == x1.dims@[0],
            self.state_shaped(s, x1.dims@[0] as int),
            self.state_shaped(between, x1.dims@[0] as int),
            self.forwards(x1, s, true, y1, between),
            self.forwards(x2, between, true, y2, last),
        ensures
            self.streams(
                tokens_of(x1) + tokens_of(x2),
                s,
                last,
                tokens_of(y1) + tokens_of(y2),
            ),
    {
        self.law_decoding_is_autoregressive(x1, s, y1, between);
        self.law_decoding_is_autoregressive(x2, between, y2, last);
        self.law_streams_join(
            tokens_of(x1),
            tokens_of(x2),
            s,
            between,
            last,
            tokens_of(y1),
            tokens_of(y2),
        );
    }

    /// A channel of a head's group lies among the channels of the key heads.
    pub(crate) proof fn lemma_group_channel(&self, h: int, c: int)
        requires
            self.wf(),
            0 <= h < self.heads(),
            0 <= c < self.head_dim,
        ensures
            0 <= h / self.group() < self.n_heads,
            0 <= (h / self.group()) * self.head_dim + c < self.keys(),
    {
        self.lemma_groups();
        let g = self.group();
        let n = self.n_heads as int;
        assert(0 <= h / g < n) by (nonlinear_arith)
            requires
                0 <= h < n * g,
                g > 0,
        ;
        lemma_block(h / g, c, n, self.head_dim as int);
    }
}

} // verus!
