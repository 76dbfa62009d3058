//! Which rounded operations a result comes from, and in which order: numbers that stand for
//! the same real may still be rounded differently.
use crate::backend::{
    exp_gives, f32_add, f32_div, f32_mul, f32_sqrt, f32_sub, matmul_gives, mean_gives,
    sigmoid_gives, silu_gives, softplus_gives, squares, sum_gives,
};
use crate::calculus::f32_calculus;
use crate::config::DecayFn;
use crate::conv::{conv_gives, conv_window};
use crate::decay::{activates, log_decay, log_decay_gives};
use crate::decode::{decayed, token_column, token_decays, token_steps, weighted};
use crate::float::{narrowed, negated, F64};
use crate::layer::KdaModule;
use crate::output::gated_norm;
use crate::projection::Projection;
use crate::recurrence::{corrected, f32_arith, rewritten};
use crate::step::{column_steps, decayed_column, steps};
use crate::tensor::Tensor;
use vstd::prelude::*;

verus! {

/// A step decays, recalls by one product of rows, and corrects every entry by the rounded
/// difference between value and recalled value, times the strength, times the key.
pub proof fn law_step_order(
    state: Tensor<4>,
    decay: Tensor<2>,
    q: Tensor<3>,
    k: Tensor<3>,
    v: Tensor<3>,
    beta: F64,
    next: Tensor<4>,
    out: Tensor<3>,
    b: int,
    h: int,
    j: int,
)
    requires
        steps(state, decay, q, k, v, beta, next, out),
        out.has(b, h, j),
    ensures
        exists|column: Seq<u32>, r: u32|
            {
                &&& #[trigger] matmul_gives(column, k.row(b, h), r)
                &&& column.len() == state.dims@[2]
                &&& forall|i: int|
                    0 <= i < column.len() ==> #[trigger] column[i] == f32_mul(
                        state.at(b, h, i, j),
                        decay.at(h, i),
                    )
                &&& forall|i: int|
                    0 <= i < column.len() ==> #[trigger] next.at(b, h, i, j) == f32_add(
                        column[i],
                        f32_mul(
                            k.at(b, h, i),
                            f32_mul(f32_sub(v.at(b, h, j), r), narrowed(beta.bits)),
                        ),
                    )
            },
        matmul_gives(q.row(b, h), next.col(b, h, j), out.at(b, h, j)),
{
    let bits = narrowed(beta.bits);
    assert(column_steps(state, decay, q, k, v, bits, next, out, b, h, j));
    let column = decayed_column(state, decay, b, h, j);
    let r = choose|r: u32|
        {
            &&& #[trigger] matmul_gives(column, k.row(b, h), r)
            &&& forall|i: int|
                0 <= i < state.dims@[2] ==> #[trigger] next.at(b, h, i, j) == corrected(
                    f32_arith(),
                    column[i],
                    k.at(b, h, i),
                    v.at(b, h, j),
                    bits,
                    r,
                )
        };
    assert(matmul_gives(column, k.row(b, h), r));
}

/// A decoded token decays, recalls by a sum, erases what it recalled and then writes, and is
/// read by a sum.
pub proof fn law_token_order(
    s: Tensor<4>,
    p: Projection,
    t: int,
    next: Tensor<4>,
    o: Tensor<4>,
    b: int,
    h: int,
    j: int,
)
    requires
        token_steps(s, p, t, next, o),
        0 <= b < s.dims@[0],
        0 <= h < s.dims@[1],
        0 <= j < s.dims@[3],
        s.dims@[0] == p.g.dims@[0],
        s.dims@[1] == p.g.dims@[1],
        s.dims@[2] == p.g.dims@[3],
    ensures
        exists|d: Seq<u32>, products: Seq<u32>, r: u32|
            {
                &&& #[trigger] d.len() == s.dims@[2]
                &&& products.len() == s.dims@[2]
                &&& #[trigger] sum_gives(products, r)
                &&& forall|i: int|
                    0 <= i < d.len() ==> exp_gives(p.g.at(b, h, t, i), #[trigger] d[i])
                &&& forall|i: int|
                    0 <= i < d.len() ==> #[trigger] products[i] == f32_mul(
                        f32_mul(s.at(b, h, i, j), d[i]),
                        p.k.at(b, h, t, i),
                    )
                &&& forall|i: int|
                    0 <= i < d.len() ==> #[trigger] next.at(b, h, i, j) == f32_add(
                        f32_sub(
                            f32_mul(s.at(b, h, i, j), d[i]),
                            f32_mul(
                                p.k.at(b, h, t, i),
                                f32_mul(r, p.beta_v.at(b, h, t, j)),
                            ),
                        ),
                        f32_mul(
                            p.k.at(b, h, t, i),
                            f32_mul(p.v.at(b, h, t, j), p.beta_v.at(b, h, t, j)),
                        ),
                    )
            },
        sum_gives(
            Seq::new(
                s.dims@[2] as nat,
                |i: int| f32_mul(next.at(b, h, i, j), p.q.at(b, h, t, i)),
            ),
            o.at(b, h, t, j),
        ),
{
    let e = choose|e: Tensor<4>|
        {
            &&& #[trigger] token_decays(p, t, e)
            &&& forall|b: int, h: int, j: int|
                0 <= b < s.dims@[0] && 0 <= h < s.dims@[1] && 0 <= j < s.dims@[3]
                    ==> #[trigger] token_column(s, p, t, e, next, o, b, h, j)
        };
    assert(token_column(s, p, t, e, next, o, b, h, j));
    let column = decayed(s, e, b, h, j);
    let products = weighted(column, p.k, b, h, t);
    let r = choose|r: u32|
        {
            &&& #[trigger] sum_gives(products, r)
            &&& forall|i: int|
                0 <= i < s.dims@[2] ==> #[trigger] next.at(b, h, i, j) == rewritten(
                    f32_arith(),
                    column[i],
                    p.k.at(b, h, t, i),
                    p.v.at(b, h, t, j),
                    p.beta_v.at(b, h, t, j),
                    r,
                )
        };
    let d = Seq::new(s.dims@[2] as nat, |i: int| e.at(b, h, 0, i));
    assert forall|i: int| 0 <= i < d.len() implies exp_gives(
        p.g.at(b, h, t, i),
        #[trigger] d[i],
    ) by {
        assert(e.has(b, h, 0, i));
    }
    assert forall|i: int| 0 <= i < d.len() implies #[trigger] products[i] == f32_mul(
        f32_mul(s.at(b, h, i, j), d[i]),
        p.k.at(b, h, t, i),
    ) by {
        assert(column[i] == f32_mul(s.at(b, h, i, j), d[i]));
    }
    assert forall|i: int| 0 <= i < d.len() implies #[trigger] next.at(b, h, i, j) == f32_add(
        f32_sub(
            f32_mul(s.at(b, h, i, j), d[i]),
            f32_mul(p.k.at(b, h, t, i), f32_mul(r, p.beta_v.at(b, h, t, j))),
        ),
        f32_mul(
            p.k.at(b, h, t, i),
            f32_mul(p.v.at(b, h, t, j), p.beta_v.at(b, h, t, j)),
        ),
    ) by {
        assert(column[i] == f32_mul(s.at(b, h, i, j), d[i]));
    }
    assert(sum_gives(products, r) && d.len() == s.dims@[2]);
    let read = Seq::new(
        s.dims@[2] as nat,
        |i: int| f32_mul(next.at(b, h, i, j), p.q.at(b, h, t, i)),
    );
    assert(weighted(next.col(b, h, j), p.q, b, h, t) =~= read);
}

/// A short convolution adds the products of its taps to zero, one after the other, from the
/// earliest token on.
pub proof fn law_convolution_order(
    x: Tensor<3>,
    w: Tensor<2>,
    b: int,
    t: int,
    c: int,
    r: u32,
)
    requires
        conv_gives(conv_window(x, b, t, c), w.row(c), r),
        w.dims@[1] == 4,
        t >= 3,
    ensures
        silu_gives(
            f32_add(
                f32_add(
                    f32_add(
                        f32_add(0, f32_mul(x.at(b, t - 3, c), w.at(c, 0))),
                        f32_mul(x.at(b, t - 2, c), w.at(c, 1)),
                    ),
                    f32_mul(x.at(b, t - 1, c), w.at(c, 2)),
                ),
                f32_mul(x.at(b, t, c), w.at(c, 3)),
            ),
            r,
        ),
{
    let s = conv_window(x, b, t, c);
    assert(s[0] == x.at(b, t - 3, c) && s[1] == x.at(b, t - 2, c));
    assert(s[2] == x.at(b, t - 1, c) && s[3] == x.at(b, t, c));
}

/// A log-decay is one product, negated under the unbounded mapping.
pub proof fn law_log_decay_order(decay_fn: DecayFn, z: u32, scale: u32, g_min: u32, g: u32)
    requires
        log_decay_gives(decay_fn, z, scale, g_min, g),
    ensures
        decay_fn == DecayFn::Softplus ==> exists|act: u32| #[trigger]
            softplus_gives(z, 0x3ff0_0000_0000_0000, act) && g == negated(f32_mul(scale, act)),
        decay_fn == DecayFn::Sigmoid ==> exists|act: u32| #[trigger]
            sigmoid_gives(f32_mul(z, scale), act) && g == f32_mul(act, g_min),
{
    let act = choose|act: u32| #[trigger]
        activates(decay_fn, z, scale, act) && g == log_decay(
            f32_arith(),
            decay_fn,
            scale,
            act,
            g_min,
        );
    assert(activates(decay_fn, z, scale, act));
}

/// The output of a head is divided by the root of the stabilized mean square, then gated,
/// then weighted.
pub proof fn law_output_order(
    layer: KdaModule,
    o: Tensor<4>,
    gate: Tensor<4>,
    merged: Tensor<3>,
    b: int,
    h: int,
    t: int,
)
    requires
        layer.head_outputs(o, gate, merged, b, h, t),
    ensures
        exists|squared: Seq<u32>, m: u32|
            {
                &&& #[trigger] mean_gives(squared, m)
                &&& squared.len() == o.dims@[3]
                &&& forall|c: int|
                    0 <= c < squared.len() ==> #[trigger] squared[c] == f32_mul(
                        o.at(b, h, t, c),
                        o.at(b, h, t, c),
                    )
                &&& forall|c: int|
                    0 <= c < layer.v_head_dim ==> #[trigger] merged.at(
                        b,
                        t,
                        h * layer.v_head_dim + c,
                    ) == f32_mul(
                        f32_mul(
                            f32_div(
                                o.at(b, h, t, c),
                                f32_sqrt(f32_add(m, narrowed(layer.norm_eps.bits))),
                            ),
                            gate.at(b, h, t, c),
                        ),
                        layer.o_norm_w.at(c),
                    )
            },
{
    let squared = squares(o.row(b, h, t));
    let m = choose|m: u32|
        {
            &&& #[trigger] mean_gives(squared, m)
            &&& forall|c: int|
                0 <= c < layer.v_head_dim ==> #[trigger] merged.at(
                    b,
                    t,
                    h * layer.v_head_dim + c,
                ) == gated_norm(
                    f32_calculus(),
                    o.at(b, h, t, c),
                    m,
                    narrowed(layer.norm_eps.bits),
                    gate.at(b, h, t, c),
                    layer.o_norm_w.at(c),
                )
        };
    assert(mean_gives(squared, m));
}

} // verus!
