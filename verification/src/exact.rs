//! The step and the output of the layer in exact arithmetic.
use crate::algebra::{
    law_delta_rule, lemma_assoc, lemma_comm, lemma_dist, lemma_dist_sub, lemma_total_add,
    lemma_total_same, lemma_total_scale, recalled, total,
};
use crate::calculus::Reals;
use crate::output::gated_norm;
use crate::recurrence::{corrected, real_arith, rewritten};
use vstd::prelude::*;

verus! {

/// The decayed column `alpha * s`, combined from two.
pub open spec fn combined(
    c1: real,
    f1: spec_fn(int) -> real,
    c2: real,
    f2: spec_fn(int) -> real,
) -> spec_fn(int) -> real {
    |i: int| c1 * f1(i) + c2 * f2(i)
}

/// Entry `i` after one step that corrects what the state recalls.
pub open spec fn step_entry(
    dk: nat,
    s: spec_fn(int) -> real,
    alpha: spec_fn(int) -> real,
    k: spec_fn(int) -> real,
    v: real,
    beta: real,
    i: int,
) -> real {
    corrected(real_arith(), alpha(i) * s(i), k(i), v, beta, recalled(dk, s, alpha, k))
}

/// Entry `i` after one decoded token, that erases and then writes.
pub open spec fn token_entry(
    dk: nat,
    s: spec_fn(int) -> real,
    alpha: spec_fn(int) -> real,
    k: spec_fn(int) -> real,
    v: real,
    beta: real,
    i: int,
) -> real {
    rewritten(real_arith(), alpha(i) * s(i), k(i), v, beta, recalled(dk, s, alpha, k))
}

/// Over the reals one decoded token is one step: the same next state and, read by the same
/// query, the same output.
pub proof fn law_decoded_token_is_a_step(
    dk: nat,
    s: spec_fn(int) -> real,
    alpha: spec_fn(int) -> real,
    q: spec_fn(int) -> real,
    k: spec_fn(int) -> real,
    v: real,
    beta: real,
)
    ensures
        forall|i: int|
            0 <= i < dk ==> #[trigger] token_entry(dk, s, alpha, k, v, beta, i) == step_entry(
                dk,
                s,
                alpha,
                k,
                v,
                beta,
                i,
            ),
        total(dk, |i: int| q(i) * token_entry(dk, s, alpha, k, v, beta, i)) == total(
            dk,
            |i: int| q(i) * step_entry(dk, s, alpha, k, v, beta, i),
        ),
{
    assert forall|i: int| 0 <= i < dk implies #[trigger] token_entry(dk, s, alpha, k, v, beta, i)
        == step_entry(dk, s, alpha, k, v, beta, i) by {
        law_delta_rule(dk, s, alpha, k, v, beta, i);
    }
    lemma_total_same(
        dk,
        |i: int| q(i) * token_entry(dk, s, alpha, k, v, beta, i),
        |i: int| q(i) * step_entry(dk, s, alpha, k, v, beta, i),
    );
}

/// A factor moves past another.
proof fn lemma_pass(a: real, c: real, x: real)
    ensures
        a * (c * x) == c * (a * x),
{
    lemma_assoc(a, c, x);
    lemma_comm(a, c);
    lemma_assoc(c, a, x);
}

/// A combination of decayed entries.
proof fn lemma_combine(a: real, c1: real, x1: real, c2: real, x2: real)
    ensures
        a * (c1 * x1 + c2 * x2) == c1 * (a * x1) + c2 * (a * x2),
{
    lemma_dist(a, c1 * x1, c2 * x2);
    lemma_pass(a, c1, x1);
    lemma_pass(a, c2, x2);
}

/// Over the reals a step is linear in the state and the value together.
pub proof fn law_step_is_linear(
    dk: nat,
    s1: spec_fn(int) -> real,
    s2: spec_fn(int) -> real,
    alpha: spec_fn(int) -> real,
    k: spec_fn(int) -> real,
    v1: real,
    v2: real,
    beta: real,
    c1: real,
    c2: real,
    i: int,
)
    ensures
        step_entry(dk, combined(c1, s1, c2, s2), alpha, k, c1 * v1 + c2 * v2, beta, i) == c1
            * step_entry(dk, s1, alpha, k, v1, beta, i) + c2 * step_entry(
            dk,
            s2,
            alpha,
            k,
            v2,
            beta,
            i,
        ),
{
    let s = combined(c1, s1, c2, s2);
    let f = |m: int| (alpha(m) * s(m)) * k(m);
    let f1 = |m: int| (alpha(m) * s1(m)) * k(m);
    let f2 = |m: int| (alpha(m) * s2(m)) * k(m);
    let g1 = |m: int| c1 * f1(m);
    let g2 = |m: int| c2 * f2(m);
    assert forall|m: int| 0 <= m < dk implies #[trigger] f(m) == (|m: int| g1(m) + g2(m))(m) by {
        lemma_combine(alpha(m), c1, s1(m), c2, s2(m));
        let x1 = alpha(m) * s1(m);
        let x2 = alpha(m) * s2(m);
        lemma_comm(c1 * x1 + c2 * x2, k(m));
        lemma_combine(k(m), c1, x1, c2, x2);
        lemma_comm(k(m), x1);
        lemma_comm(k(m), x2);
    }
    lemma_total_same(dk, f, |m: int| g1(m) + g2(m));
    lemma_total_add(dk, g1, g2);
    lemma_total_scale(dk, c1, f1);
    lemma_total_scale(dk, c2, f2);
    let r1 = recalled(dk, s1, alpha, k);
    let r2 = recalled(dk, s2, alpha, k);
    let r = recalled(dk, s, alpha, k);
    assert(r == c1 * r1 + c2 * r2);
    let v = c1 * v1 + c2 * v2;
    lemma_combine(alpha(i), c1, s1(i), c2, s2(i));
    lemma_dist_sub(c1, v1, r1);
    lemma_dist_sub(c2, v2, r2);
    assert(v - r == c1 * (v1 - r1) + c2 * (v2 - r2));
    lemma_comm(v - r, beta);
    lemma_combine(beta, c1, v1 - r1, c2, v2 - r2);
    lemma_comm(beta, v1 - r1);
    lemma_comm(beta, v2 - r2);
    let d1 = (v1 - r1) * beta;
    let d2 = (v2 - r2) * beta;
    lemma_combine(k(i), c1, d1, c2, d2);
    lemma_dist(c1, alpha(i) * s1(i), k(i) * d1);
    lemma_dist(c2, alpha(i) * s2(i), k(i) * d2);
}

/// The mean of the squares of one head.
pub open spec fn mean_square(vd: nat, o: spec_fn(int) -> real) -> real {
    total(vd, |c: int| o(c) * o(c)) / (vd as real)
}

/// One channel of the layer's output over the reals: all heads normalized, gated, weighted
/// and mapped by a column `w` of the output map.
pub open spec fn layer_output(
    rs: Reals,
    heads: nat,
    vd: nat,
    o: spec_fn(int, int) -> real,
    gate: spec_fn(int, int) -> real,
    eps: real,
    norm: spec_fn(int) -> real,
    w: spec_fn(int, int) -> real,
) -> real {
    total(
        heads,
        |h: int|
            total(
                vd,
                |c: int|
                    gated_norm(
                        rs.calculus(),
                        o(h, c),
                        mean_square(vd, |d: int| o(h, d)),
                        eps,
                        gate(h, c),
                        norm(c),
                    ) * w(h, c),
            ),
    )
}

/// A double sum with a common factor.
proof fn lemma_scale_twice(
    heads: nat,
    vd: nat,
    a: real,
    f: spec_fn(int, int) -> real,
    g: spec_fn(int, int) -> real,
)
    requires
        forall|h: int, c: int|
            0 <= h < heads && 0 <= c < vd ==> #[trigger] g(h, c) == a * f(h, c),
    ensures
        total(heads, |h: int| total(vd, |c: int| g(h, c))) == a * total(
            heads,
            |h: int| total(vd, |c: int| f(h, c)),
        ),
{
    let inner_f = |h: int| total(vd, |c: int| f(h, c));
    let inner_g = |h: int| total(vd, |c: int| g(h, c));
    let scaled = |h: int| a * inner_f(h);
    assert forall|h: int| 0 <= h < heads implies #[trigger] inner_g(h) == scaled(h) by {
        let fh = |c: int| f(h, c);
        lemma_total_scale(vd, a, fh);
        lemma_total_same(vd, |c: int| g(h, c), |c: int| a * fh(c));
    }
    lemma_total_same(heads, inner_g, scaled);
    lemma_total_scale(heads, a, inner_f);
}

/// Over the reals the output scales with its gates: they are applied after the norm.
pub proof fn law_output_is_linear_in_gate(
    rs: Reals,
    heads: nat,
    vd: nat,
    o: spec_fn(int, int) -> real,
    gate: spec_fn(int, int) -> real,
    eps: real,
    norm: spec_fn(int) -> real,
    w: spec_fn(int, int) -> real,
    a: real,
)
    ensures
        layer_output(rs, heads, vd, o, |h: int, c: int| a * gate(h, c), eps, norm, w) == a
            * layer_output(rs, heads, vd, o, gate, eps, norm, w),
{
    let c0 = rs.calculus();
    let scaled = |h: int, c: int| a * gate(h, c);
    let f = |h: int, c: int|
        gated_norm(
            c0,
            o(h, c),
            mean_square(vd, |d: int| o(h, d)),
            eps,
            gate(h, c),
            norm(c),
        ) * w(h, c);
    let g = |h: int, c: int|
        gated_norm(
            c0,
            o(h, c),
            mean_square(vd, |d: int| o(h, d)),
            eps,
            scaled(h, c),
            norm(c),
        ) * w(h, c);
    assert forall|h: int, c: int| 0 <= h < heads && 0 <= c < vd implies #[trigger] g(h, c) == a
        * f(h, c) by {
        let m = mean_square(vd, |d: int| o(h, d));
        let x = o(h, c) / (rs.sqrt)(m + eps);
        let y = gate(h, c);
        lemma_pass(x, a, y);
        lemma_assoc(a, x * y, norm(c));
        lemma_assoc(a, (x * y) * norm(c), w(h, c));
    }
    lemma_scale_twice(heads, vd, a, f, g);
    lemma_layer_sum(rs, heads, vd, o, gate, eps, norm, w, f);
    lemma_layer_sum(rs, heads, vd, o, scaled, eps, norm, w, g);
}

/// The layer's output as a double sum.
proof fn lemma_layer_sum(
    rs: Reals,
    heads: nat,
    vd: nat,
    o: spec_fn(int, int) -> real,
    gate: spec_fn(int, int) -> real,
    eps: real,
    norm: spec_fn(int) -> real,
    w: spec_fn(int, int) -> real,
    f: spec_fn(int, int) -> real,
)
    requires
        forall|h: int, c: int|
            0 <= h < heads && 0 <= c < vd ==> #[trigger] f(h, c) == gated_norm(
                rs.calculus(),
                o(h, c),
                mean_square(vd, |d: int| o(h, d)),
                eps,
                gate(h, c),
                norm(c),
            ) * w(h, c),
    ensures
        layer_output(rs, heads, vd, o, gate, eps, norm, w) == total(
            heads,
            |h: int| total(vd, |c: int| f(h, c)),
        ),
{
    let outer = |h: int|
        total(
            vd,
            |c: int|
                gated_norm(
                    rs.calculus(),
                    o(h, c),
                    mean_square(vd, |d: int| o(h, d)),
                    eps,
                    gate(h, c),
                    norm(c),
                ) * w(h, c),
        );
    let plain = |h: int| total(vd, |c: int| f(h, c));
    assert forall|h: int| 0 <= h < heads implies #[trigger] outer(h) == plain(h) by {
        lemma_total_same(
            vd,
            |c: int|
                gated_norm(
                    rs.calculus(),
                    o(h, c),
                    mean_square(vd, |d: int| o(h, d)),
                    eps,
                    gate(h, c),
                    norm(c),
                ) * w(h, c),
            |c: int| f(h, c),
        );
    }
    lemma_total_same(heads, outer, plain);
}

/// A sum of squares is not negative.
proof fn lemma_squares(n: nat, o: spec_fn(int) -> real)
    ensures
        total(n, |c: int| o(c) * o(c)) >= 0real,
    decreases n,
{
    if n > 0 {
        lemma_squares((n - 1) as nat, o);
        let x = o(n - 1);
        assert(x * x >= 0real) by (nonlinear_arith);
    }
}

/// The stabilized root of a head is positive.
proof fn lemma_root(rs: Reals, vd: nat, o: spec_fn(int) -> real, eps: real)
    requires
        vd > 0,
        eps > 0real,
        rs.sqrt_positive(),
    ensures
        (rs.sqrt)(mean_square(vd, o) + eps) > 0real,
{
    lemma_squares(vd, o);
    let t = total(vd, |c: int| o(c) * o(c));
    let n = vd as real;
    assert(t / n >= 0real) by (nonlinear_arith)
        requires
            t >= 0real,
            n > 0real,
    ;
}

/// Over the reals the output is odd in the outputs of the heads, and zero where they are.
pub proof fn law_output_is_odd(
    rs: Reals,
    heads: nat,
    vd: nat,
    o: spec_fn(int, int) -> real,
    gate: spec_fn(int, int) -> real,
    eps: real,
    norm: spec_fn(int) -> real,
    w: spec_fn(int, int) -> real,
)
    requires
        eps > 0real,
        rs.sqrt_positive(),
    ensures
        layer_output(rs, heads, vd, |h: int, c: int| -o(h, c), gate, eps, norm, w)
            == -layer_output(rs, heads, vd, o, gate, eps, norm, w),
        layer_output(rs, heads, vd, |h: int, c: int| 0real, gate, eps, norm, w) == 0real,
{
    let c0 = rs.calculus();
    let turned = |h: int, c: int| -o(h, c);
    let zero = |h: int, c: int| 0real;
    let f = |h: int, c: int|
        gated_norm(
            c0,
            o(h, c),
            mean_square(vd, |d: int| o(h, d)),
            eps,
            gate(h, c),
            norm(c),
        ) * w(h, c);
    let g = |h: int, c: int|
        gated_norm(
            c0,
            turned(h, c),
            mean_square(vd, |d: int| turned(h, d)),
            eps,
            gate(h, c),
            norm(c),
        ) * w(h, c);
    let z = |h: int, c: int|
        gated_norm(
            c0,
            zero(h, c),
            mean_square(vd, |d: int| zero(h, d)),
            eps,
            gate(h, c),
            norm(c),
        ) * w(h, c);
    let minus = -1real;
    assert forall|h: int, c: int| 0 <= h < heads && 0 <= c < vd implies #[trigger] g(h, c) == minus
        * f(h, c) by {
        let oh = |d: int| o(h, d);
        let th = |d: int| turned(h, d);
        let os = |d: int| oh(d) * oh(d);
        let ts = |d: int| th(d) * th(d);
        assert forall|d: int| 0 <= d < vd implies #[trigger] os(d) == ts(d) by {
            let x = oh(d);
            assert((-x) * (-x) == x * x) by (nonlinear_arith);
        }
        lemma_total_same(vd, os, ts);
        let m = mean_square(vd, oh);
        assert(mean_square(vd, th) == m);
        lemma_root(rs, vd, oh, eps);
        let root = (rs.sqrt)(m + eps);
        let x = o(h, c);
        assert((-x) / root == -(x / root)) by (nonlinear_arith)
            requires
                root > 0real,
        ;
        lemma_negated(x / root, gate(h, c));
        lemma_negated((x / root) * gate(h, c), norm(c));
        lemma_negated(((x / root) * gate(h, c)) * norm(c), w(h, c));
        let y = f(h, c);
        assert(minus * y == -y) by (nonlinear_arith)
            requires
                minus == -1real,
        ;
    }
    lemma_scale_twice(heads, vd, minus, f, g);
    lemma_layer_sum(rs, heads, vd, o, gate, eps, norm, w, f);
    lemma_layer_sum(rs, heads, vd, turned, gate, eps, norm, w, g);
    let y = layer_output(rs, heads, vd, o, gate, eps, norm, w);
    assert(minus * y == -y) by (nonlinear_arith)
        requires
            minus == -1real,
    ;
    assert forall|h: int, c: int| 0 <= h < heads && 0 <= c < vd implies #[trigger] z(h, c) == 0real
        * f(h, c) by {
        let zh = |d: int| zero(h, d);
        lemma_root(rs, vd, zh, eps);
        let root = (rs.sqrt)(mean_square(vd, zh) + eps);
        assert(0real / root == 0real) by (nonlinear_arith)
            requires
                root > 0real,
        ;
        lemma_nothing(gate(h, c));
        lemma_nothing(norm(c));
        lemma_nothing(w(h, c));
        lemma_nothing(f(h, c));
    }
    lemma_scale_twice(heads, vd, 0real, f, z);
    lemma_layer_sum(rs, heads, vd, zero, gate, eps, norm, w, z);
    lemma_nothing(y);
}

/// A sign leaves a product.
proof fn lemma_negated(a: real, b: real)
    ensures
        (-a) * b == -(a * b),
{
    assert((-a) * b == -(a * b)) by (nonlinear_arith);
}

/// Nothing times anything.
proof fn lemma_nothing(a: real)
    ensures
        0real * a == 0real,
{
    assert(0real * a == 0real) by (nonlinear_arith);
}

} // verus!
