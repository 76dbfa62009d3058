//! What holds of the layer as a whole.
use crate::backend::{exp_gives, f32_add};
use crate::config::DecayFn;
use crate::decay::{activates, log_decay, log_decay_gives, KdaDecay};
use crate::decode::{decodes, token_steps, traces};
use crate::float::narrowed;
use crate::layer::KdaModule;
use crate::projection::Projection;
use crate::recurrence::f32_arith;
use crate::tensor::Tensor;
use vstd::prelude::*;

verus! {

/// The write strength is one number per token and head: the same over all key channels
/// and all value channels.
pub proof fn law_one_strength_per_head(
    layer: KdaModule,
    x: Tensor<3>,
    p: Projection,
    b: int,
    h: int,
    t: int,
    c: int,
    d: int,
)
    requires
        layer.projects(x, p),
        p.beta_k.has(b, h, t, c),
        p.beta_v.has(b, h, t, d),
    ensures
        p.beta_k.at(b, h, t, c) == p.beta_v.at(b, h, t, d),
{
}

/// With more value heads than key heads, the value heads of a group share queries, keys,
/// decays and write strengths.
pub proof fn law_group_shares_keys(
    layer: KdaModule,
    x: Tensor<3>,
    p: Projection,
    b: int,
    h: int,
    h2: int,
    t: int,
    c: int,
)
    requires
        layer.wf(),
        layer.projects(x, p),
        p.q.has(b, h, t, c),
        p.q.has(b, h2, t, c),
        h / layer.group() == h2 / layer.group(),
    ensures
        p.q.at(b, h, t, c) == p.q.at(b, h2, t, c),
        p.k.at(b, h, t, c) == p.k.at(b, h2, t, c),
        p.g.at(b, h, t, c) == p.g.at(b, h2, t, c),
        p.beta_k.at(b, h, t, c) == p.beta_k.at(b, h2, t, c),
{
    layer.lemma_decay_head_dim();
}

/// There is a group for every key head, and with as many value heads as key heads every
/// group is a single head.
pub proof fn law_groups(layer: KdaModule)
    requires
        layer.wf(),
    ensures
        layer.heads() == layer.n_heads * layer.group(),
        layer.groups_values() ==> layer.heads() == layer.n_v_heads,
        layer.n_v_heads <= layer.n_heads ==> layer.group() == 1,
{
    layer.lemma_groups();
    if layer.n_v_heads <= layer.n_heads {
        vstd::arithmetic::div_mod::lemma_div_by_self(layer.n_heads as int);
    }
}

/// A pass that does not update the state leaves it as it was.
pub proof fn law_read_only(
    layer: KdaModule,
    x: Tensor<3>,
    s: Tensor<4>,
    y: Tensor<3>,
    last: Tensor<4>,
)
    requires
        layer.forwards(x, s, false, y, last),
    ensures
        last == s,
{
}

/// Decoding some tokens and then, from the state they leave, the tokens after them is
/// decoding all of them.
pub proof fn law_decode_joins(
    p: Projection,
    lo: int,
    mid: int,
    hi: int,
    s: Tensor<4>,
    between: Tensor<4>,
    last: Tensor<4>,
    out: Tensor<4>,
)
    requires
        lo <= mid <= hi,
        decodes(p, lo, mid, s, between, out),
        decodes(p, mid, hi, between, last, out),
    ensures
        decodes(p, lo, hi, s, last, out),
{
    let a = choose|a: Seq<Tensor<4>>|
        {
            &&& a.len() == mid - lo + 1
            &&& a[0] == s
            &&& a[mid - lo] == between
            &&& #[trigger] traces(p, lo, a, out)
        };
    let b = choose|b: Seq<Tensor<4>>|
        {
            &&& b.len() == hi - mid + 1
            &&& b[0] == between
            &&& b[hi - mid] == last
            &&& #[trigger] traces(p, mid, b, out)
        };
    let c = a + b.skip(1);
    assert forall|n: int| 0 <= n < c.len() - 1 implies token_steps(
        #[trigger] c[n],
        p,
        lo + n,
        c[n + 1],
        out,
    ) by {
        if n < mid - lo {
            assert(token_steps(a[n], p, lo + n, a[n + 1], out));
        } else {
            let m = n - (mid - lo);
            assert(c[n] == b[m]);
            assert(token_steps(b[m], p, mid + m, b[m + 1], out));
            assert(mid + m == lo + n);
        }
    }
    assert(traces(p, lo, c, out));
}

/// Decoding can be stopped at any token and taken up from the state it left.
pub proof fn law_decode_splits(
    p: Projection,
    lo: int,
    mid: int,
    hi: int,
    s: Tensor<4>,
    last: Tensor<4>,
    out: Tensor<4>,
)
    requires
        lo <= mid <= hi,
        decodes(p, lo, hi, s, last, out),
    ensures
        exists|between: Tensor<4>| #[trigger]
            decodes(p, lo, mid, s, between, out) && decodes(p, mid, hi, between, last, out),
{
    let c = choose|c: Seq<Tensor<4>>|
        {
            &&& c.len() == hi - lo + 1
            &&& c[0] == s
            &&& c[hi - lo] == last
            &&& #[trigger] traces(p, lo, c, out)
        };
    let between = c[mid - lo];
    let a = c.take(mid - lo + 1);
    let b = c.skip(mid - lo);
    assert forall|n: int| 0 <= n < a.len() - 1 implies token_steps(
        #[trigger] a[n],
        p,
        lo + n,
        a[n + 1],
        out,
    ) by {
        assert(token_steps(c[n], p, lo + n, c[n + 1], out));
    }
    assert forall|n: int| 0 <= n < b.len() - 1 implies token_steps(
        #[trigger] b[n],
        p,
        mid + n,
        b[n + 1],
        out,
    ) by {
        let m = mid - lo + n;
        assert(token_steps(c[m], p, lo + m, c[m + 1], out));
        assert(lo + m == mid + n);
    }
    assert(traces(p, lo, a, out));
    assert(traces(p, mid, b, out));
    assert(decodes(p, lo, mid, s, between, out));
    assert(decodes(p, mid, hi, between, last, out));
}

/// Under the unbounded mapping the floor plays no part: two decays that differ in it alone
/// may give the same decays for the same input.
pub proof fn law_softplus_ignores_floor(
    d1: KdaDecay,
    d2: KdaDecay,
    x: Tensor<3>,
    alpha: Tensor<4>,
)
    requires
        d1.decay_fn == DecayFn::Softplus,
        d2.decay_fn == DecayFn::Softplus,
        d1.w_up == d2.w_up,
        d1.w_down == d2.w_down,
        d1.b_alpha == d2.b_alpha,
        d1.a_log == d2.a_log,
    ensures
        d1.decays(x, alpha) == d2.decays(x, alpha),
{
    if d1.decays(x, alpha) {
        lemma_softplus_floor(d1, d2, x, alpha);
    }
    if d2.decays(x, alpha) {
        lemma_softplus_floor(d2, d1, x, alpha);
    }
}

proof fn lemma_softplus_floor(d1: KdaDecay, d2: KdaDecay, x: Tensor<3>, alpha: Tensor<4>)
    requires
        d1.decay_fn == DecayFn::Softplus,
        d2.decay_fn == DecayFn::Softplus,
        d1.w_up == d2.w_up,
        d1.w_down == d2.w_down,
        d1.b_alpha == d2.b_alpha,
        d1.a_log == d2.a_log,
        d1.decays(x, alpha),
    ensures
        d2.decays(x, alpha),
{
    let (u, z, a) = choose|u: Tensor<3>, z: Tensor<3>, a: Seq<u32>|
        {
            &&& #[trigger] d1.w_up.maps(x, u)
            &&& #[trigger] d1.w_down.maps(u, z)
            &&& #[trigger] d1.scales(a)
            &&& forall|b: int, t: int, h: int, c: int|
                alpha.has(b, t, h, c) ==> d1.channel_decays(
                    z,
                    a,
                    b,
                    t,
                    h,
                    c,
                    #[trigger] alpha.at(b, t, h, c),
                )
        };
    assert(d2.w_up.maps(x, u) && d2.w_down.maps(u, z) && d2.scales(a));
    assert forall|b: int, t: int, h: int, c: int|
        alpha.has(b, t, h, c) implies d2.channel_decays(
        z,
        a,
        b,
        t,
        h,
        c,
        #[trigger] alpha.at(b, t, h, c),
    ) by {
        assert(d1.channel_decays(z, a, b, t, h, c, alpha.at(b, t, h, c)));
        let n = h * d1.head_dim() + c;
        let logit = f32_add(z.at(b, t, n), d1.b_alpha.at(n));
        let g = choose|g: u32| #[trigger]
            log_decay_gives(d1.decay_fn, logit, a[h], narrowed(d1.g_min.bits), g) && exp_gives(
                g,
                alpha.at(b, t, h, c),
            );
        let act = choose|act: u32| #[trigger]
            activates(d1.decay_fn, logit, a[h], act) && g == log_decay(
                f32_arith(),
                d1.decay_fn,
                a[h],
                act,
                narrowed(d1.g_min.bits),
            );
        assert(activates(d2.decay_fn, logit, a[h], act));
        assert(log_decay(f32_arith(), d2.decay_fn, a[h], act, narrowed(d2.g_min.bits)) == g);
        assert(log_decay_gives(d2.decay_fn, logit, a[h], narrowed(d2.g_min.bits), g));
        let n2 = h * d2.head_dim() + c;
        assert(n2 == n && f32_add(z.at(b, t, n2), d2.b_alpha.at(n2)) == logit);
        assert(log_decay_gives(
            d2.decay_fn,
            f32_add(z.at(b, t, n2), d2.b_alpha.at(n2)),
            a[h],
            narrowed(d2.g_min.bits),
            g,
        ) && exp_gives(g, alpha.at(b, t, h, c)));
    }
}

} // verus!
