//! The recurrence and its chunked form in exact arithmetic.
//!
//! The value channels of a head do not meet, so everything here follows one of them: the
//! state is a column over the key channels.
use crate::recurrence::{corrected, real_arith, rewritten};
use vstd::prelude::*;

verus! {

/// The sum of `f(0)`, ..., `f(n - 1)`.
pub open spec fn total(n: nat, f: spec_fn(int) -> real) -> real
    decreases n,
{
    if n == 0 {
        0real
    } else {
        total((n - 1) as nat, f) + f(n - 1)
    }
}

/// Multiplication is associative.
pub(crate) proof fn lemma_assoc(a: real, b: real, c: real)
    ensures
        (a * b) * c == a * (b * c),
{
    assert((a * b) * c == a * (b * c)) by (nonlinear_arith);
}

/// Multiplication is commutative.
pub(crate) proof fn lemma_comm(a: real, b: real)
    ensures
        a * b == b * a,
{
    assert(a * b == b * a) by (nonlinear_arith);
}

/// Multiplication distributes over addition.
pub(crate) proof fn lemma_dist(a: real, b: real, c: real)
    ensures
        a * (b + c) == a * b + a * c,
{
    assert(a * (b + c) == a * b + a * c) by (nonlinear_arith);
}

/// Multiplication distributes over subtraction.
pub(crate) proof fn lemma_dist_sub(a: real, b: real, c: real)
    ensures
        a * (b - c) == a * b - a * c,
{
    assert(a * (b - c) == a * b - a * c) by (nonlinear_arith);
}

/// One is neutral.
pub(crate) proof fn lemma_one(a: real)
    ensures
        1real * a == a,
{
    assert(1real * a == a) by (nonlinear_arith);
}

/// Equal terms have equal sums.
pub(crate) proof fn lemma_total_same(n: nat, f: spec_fn(int) -> real, g: spec_fn(int) -> real)
    requires
        forall|i: int| 0 <= i < n ==> #[trigger] f(i) == g(i),
    ensures
        total(n, f) == total(n, g),
    decreases n,
{
    if n > 0 {
        lemma_total_same((n - 1) as nat, f, g);
        assert(f(n - 1) == g(n - 1));
    }
}

/// The sum of sums.
pub(crate) proof fn lemma_total_add(n: nat, f: spec_fn(int) -> real, g: spec_fn(int) -> real)
    ensures
        total(n, |i: int| f(i) + g(i)) == total(n, f) + total(n, g),
    decreases n,
{
    if n > 0 {
        lemma_total_add((n - 1) as nat, f, g);
    }
}

/// The sum of differences.
pub(crate) proof fn lemma_total_sub(n: nat, f: spec_fn(int) -> real, g: spec_fn(int) -> real)
    ensures
        total(n, |i: int| f(i) - g(i)) == total(n, f) - total(n, g),
    decreases n,
{
    if n > 0 {
        lemma_total_sub((n - 1) as nat, f, g);
    }
}

/// A common factor leaves the sum.
pub(crate) proof fn lemma_total_scale(n: nat, c: real, f: spec_fn(int) -> real)
    ensures
        total(n, |i: int| c * f(i)) == c * total(n, f),
    decreases n,
{
    if n > 0 {
        lemma_total_scale((n - 1) as nat, c, f);
        let a = total((n - 1) as nat, f);
        let b = f(n - 1);
        assert(c * (a + b) == c * a + c * b) by (nonlinear_arith);
    } else {
        assert(c * 0real == 0real) by (nonlinear_arith);
    }
}

/// A double sum can be taken in either order.
pub(crate) proof fn lemma_total_swap(n: nat, m: nat, f: spec_fn(int, int) -> real)
    ensures
        total(n, |i: int| total(m, |j: int| f(i, j))) == total(m, |j: int| total(n, |i: int| f(i, j))),
    decreases n,
{
    let inner = |j: int| total((n - 1) as nat, |i: int| f(i, j));
    if n > 0 {
        lemma_total_swap((n - 1) as nat, m, f);
        let last = |j: int| f(n - 1, j);
        lemma_total_add(m, inner, last);
        lemma_total_same(m, |j: int| inner(j) + last(j), |j: int| total(n, |i: int| f(i, j)));
        assert(total(m, |j: int| inner(j)) == total(m, inner)) by {
            lemma_total_same(m, |j: int| inner(j), inner);
        }
        assert(total(m, |j: int| f(n - 1, j)) == total(m, last));
    } else {
        lemma_total_zero(m, |j: int| total(n, |i: int| f(i, j)));
    }
}

/// A sum of zeros.
pub(crate) proof fn lemma_total_zero(n: nat, f: spec_fn(int) -> real)
    requires
        forall|i: int| 0 <= i < n ==> #[trigger] f(i) == 0real,
    ensures
        total(n, f) == 0real,
    decreases n,
{
    if n > 0 {
        lemma_total_zero((n - 1) as nat, f);
        assert(f(n - 1) == 0real);
    }
}

/// Entry `(i, m)` of the identity matrix.
pub open spec fn unit(i: int, m: int) -> real {
    if i == m {
        1real
    } else {
        0real
    }
}

/// Entry `i` of `(I - beta k k^T) Diag(alpha) S + beta k v^T` in one value channel.
pub open spec fn matrix_step(
    dk: nat,
    s: spec_fn(int) -> real,
    alpha: spec_fn(int) -> real,
    k: spec_fn(int) -> real,
    v: real,
    beta: real,
    i: int,
) -> real {
    total(dk, |m: int| (unit(i, m) - beta * k(i) * k(m)) * (alpha(m) * s(m))) + beta * k(i) * v
}

/// What a decayed column recalls for a key.
pub open spec fn recalled(
    dk: nat,
    s: spec_fn(int) -> real,
    alpha: spec_fn(int) -> real,
    k: spec_fn(int) -> real,
) -> real {
    total(dk, |m: int| (alpha(m) * s(m)) * k(m))
}

/// The rows of the identity matrix pick an entry.
pub(crate) proof fn lemma_total_unit(n: nat, i: int, f: spec_fn(int) -> real)
    ensures
        total(n, |m: int| unit(i, m) * f(m)) == if 0 <= i < n {
            f(i)
        } else {
            0real
        },
    decreases n,
{
    if n > 0 {
        lemma_total_unit((n - 1) as nat, i, f);
        let last = f(n - 1);
        assert(1real * last == last && 0real * last == 0real) by (nonlinear_arith);
    }
}

/// In exact arithmetic, both ways of writing the delta rule, as a correction and as an
/// erasure followed by a write, are an entry of
/// `(I - beta k k^T) Diag(alpha) S + beta k v^T`.
pub proof fn law_delta_rule(
    dk: nat,
    s: spec_fn(int) -> real,
    alpha: spec_fn(int) -> real,
    k: spec_fn(int) -> real,
    v: real,
    beta: real,
    i: int,
)
    requires
        0 <= i < dk,
    ensures
        rewritten(
            real_arith(),
            alpha(i) * s(i),
            k(i),
            v,
            beta,
            recalled(dk, s, alpha, k),
        ) == matrix_step(dk, s, alpha, k, v, beta, i),
        corrected(
            real_arith(),
            alpha(i) * s(i),
            k(i),
            v,
            beta,
            recalled(dk, s, alpha, k),
        ) == matrix_step(dk, s, alpha, k, v, beta, i),
{
    let c = |m: int| alpha(m) * s(m);
    let ck = |m: int| (alpha(m) * s(m)) * k(m);
    let whole = |m: int| (unit(i, m) - beta * k(i) * k(m)) * (alpha(m) * s(m));
    let kept = |m: int| unit(i, m) * c(m);
    let x = -(beta * k(i));
    let erased = |m: int| x * ck(m);
    assert forall|m: int| 0 <= m < dk implies #[trigger] whole(m) == (|m: int|
        kept(m) + erased(m))(m) by {
        let e = unit(i, m);
        let b = beta * k(i);
        let km = k(m);
        let cm = alpha(m) * s(m);
        assert((e - b * km) * cm == e * cm + (-b) * (cm * km)) by (nonlinear_arith);
    }
    lemma_total_same(dk, whole, |m: int| kept(m) + erased(m));
    lemma_total_add(dk, kept, erased);
    lemma_total_unit(dk, i, c);
    lemma_total_scale(dk, x, ck);
    let r = recalled(dk, s, alpha, k);
    let ci = c(i);
    let ki = k(i);
    assert(total(dk, whole) == ci + x * r);
    assert(ci - ki * (r * beta) + ki * (v * beta) == ci + (-(beta * ki)) * r + beta * ki * v)
        by (nonlinear_arith);
    assert(ci + ki * ((v - r) * beta) == ci + (-(beta * ki)) * r + beta * ki * v)
        by (nonlinear_arith);
}

} // verus!
