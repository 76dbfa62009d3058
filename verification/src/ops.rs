//! Element-wise arithmetic and the layout changes that the layer is made of.
use crate::backend::{
    difference_of, exp_of, f32_add, f32_div, f32_mul, f32_sqrt, f32_sub, exp_gives, ln_gives, ln_of,
    product_of, quotient_of, sigmoid_gives, sigmoid_of, silu_gives, silu_of, softplus_gives,
    softplus_of, sqrt_of, sum_of,
};
use crate::float::{negate, negated, num, F64};
use crate::tensor::{
    build4, drop_first_axis, elem3, elem4, lemma_block, lemma_numel3, lemma_numel4, lemma_offset3,
    lemma_offset4, numel, Tensor,
};
use vstd::prelude::*;

verus! {

/// Element-wise sum.
pub(crate) fn add4(a: &Tensor<4>, b: &Tensor<4>) -> (r: Tensor<4>)
    requires
        a.wf(),
        b.wf(),
        a.dims@ =~= b.dims@,
    ensures
        r.wf(),
        r.dims@ == a.dims@,
        forall|i: int, j: int, k: int, l: int|
            a.has(i, j, k, l) ==> #[trigger] r.at(i, j, k, l) == f32_add(
                a.at(i, j, k, l),
                b.at(i, j, k, l),
            ),
{
    let r = Tensor { dims: a.dims, bits: sum_of(&a.bits, &b.bits) };
    assert forall|i: int, j: int, k: int, l: int| a.has(i, j, k, l) implies #[trigger] r.at(
        i,
        j,
        k,
        l,
    ) == f32_add(a.at(i, j, k, l), b.at(i, j, k, l)) by {
        reveal(elem4);
        lemma_offset4(a.dims@, i, j, k, l);
    }
    r
}

/// Element-wise difference.
pub(crate) fn sub4(a: &Tensor<4>, b: &Tensor<4>) -> (r: Tensor<4>)
    requires
        a.wf(),
        b.wf(),
        a.dims@ =~= b.dims@,
    ensures
        r.wf(),
        r.dims@ == a.dims@,
        forall|i: int, j: int, k: int, l: int|
            a.has(i, j, k, l) ==> #[trigger] r.at(i, j, k, l) == f32_sub(
                a.at(i, j, k, l),
                b.at(i, j, k, l),
            ),
{
    let r = Tensor { dims: a.dims, bits: difference_of(&a.bits, &b.bits) };
    assert forall|i: int, j: int, k: int, l: int| a.has(i, j, k, l) implies #[trigger] r.at(
        i,
        j,
        k,
        l,
    ) == f32_sub(a.at(i, j, k, l), b.at(i, j, k, l)) by {
        reveal(elem4);
        lemma_offset4(a.dims@, i, j, k, l);
    }
    r
}

/// Element-wise product.
pub(crate) fn mul4(a: &Tensor<4>, b: &Tensor<4>) -> (r: Tensor<4>)
    requires
        a.wf(),
        b.wf(),
        a.dims@ =~= b.dims@,
    ensures
        r.wf(),
        r.dims@ == a.dims@,
        forall|i: int, j: int, k: int, l: int|
            a.has(i, j, k, l) ==> #[trigger] r.at(i, j, k, l) == f32_mul(
                a.at(i, j, k, l),
                b.at(i, j, k, l),
            ),
{
    let r = Tensor { dims: a.dims, bits: product_of(&a.bits, &b.bits) };
    assert forall|i: int, j: int, k: int, l: int| a.has(i, j, k, l) implies #[trigger] r.at(
        i,
        j,
        k,
        l,
    ) == f32_mul(a.at(i, j, k, l), b.at(i, j, k, l)) by {
        reveal(elem4);
        lemma_offset4(a.dims@, i, j, k, l);
    }
    r
}

/// Element-wise quotient.
pub(crate) fn div4(a: &Tensor<4>, b: &Tensor<4>) -> (r: Tensor<4>)
    requires
        a.wf(),
        b.wf(),
        a.dims@ =~= b.dims@,
    ensures
        r.wf(),
        r.dims@ == a.dims@,
        forall|i: int, j: int, k: int, l: int|
            a.has(i, j, k, l) ==> #[trigger] r.at(i, j, k, l) == f32_div(
                a.at(i, j, k, l),
                b.at(i, j, k, l),
            ),
{
    let r = Tensor { dims: a.dims, bits: quotient_of(&a.bits, &b.bits) };
    assert forall|i: int, j: int, k: int, l: int| a.has(i, j, k, l) implies #[trigger] r.at(
        i,
        j,
        k,
        l,
    ) == f32_div(a.at(i, j, k, l), b.at(i, j, k, l)) by {
        reveal(elem4);
        lemma_offset4(a.dims@, i, j, k, l);
    }
    r
}

/// Element-wise square root.
pub(crate) fn sqrt4(a: &Tensor<4>) -> (r: Tensor<4>)
    requires
        a.wf(),
    ensures
        r.wf(),
        r.dims@ == a.dims@,
        forall|i: int, j: int, k: int, l: int|
            a.has(i, j, k, l) ==> #[trigger] r.at(i, j, k, l) == f32_sqrt(a.at(i, j, k, l)),
{
    let r = Tensor { dims: a.dims, bits: sqrt_of(&a.bits) };
    assert forall|i: int, j: int, k: int, l: int| a.has(i, j, k, l) implies #[trigger] r.at(
        i,
        j,
        k,
        l,
    ) == f32_sqrt(a.at(i, j, k, l)) by {
        reveal(elem4);
        lemma_offset4(a.dims@, i, j, k, l);
    }
    r
}

fn negate_all(a: &Vec<u32>) -> (r: Vec<u32>)
    ensures
        r@.len() == a@.len(),
        forall|i: int| 0 <= i < r@.len() ==> num(#[trigger] r@[i]) == negated(num(a@[i])),
{
    let mut r: Vec<u32> = Vec::new();
    let mut n: usize = 0;
    while n < a.len()
        invariant
            n <= a@.len(),
            r@.len() == n,
            forall|i: int| 0 <= i < n ==> num(#[trigger] r@[i]) == negated(num(a@[i])),
        decreases a@.len() - n,
    {
        r.push(negate(a[n]));
        n = n + 1;
    }
    r
}

/// Element-wise negation.
pub(crate) fn neg4(a: &Tensor<4>) -> (r: Tensor<4>)
    requires
        a.wf(),
    ensures
        r.wf(),
        r.dims@ == a.dims@,
        forall|i: int, j: int, k: int, l: int|
            a.has(i, j, k, l) ==> #[trigger] r.at(i, j, k, l) == negated(a.at(i, j, k, l)),
{
    let r = Tensor { dims: a.dims, bits: negate_all(&a.bits) };
    assert forall|i: int, j: int, k: int, l: int| a.has(i, j, k, l) implies #[trigger] r.at(
        i,
        j,
        k,
        l,
    ) == negated(a.at(i, j, k, l)) by {
        reveal(elem4);
        lemma_offset4(a.dims@, i, j, k, l);
    }
    r
}

/// Element-wise exponential.
pub(crate) fn exp4(a: &Tensor<4>) -> (r: Tensor<4>)
    requires
        a.wf(),
    ensures
        r.wf(),
        r.dims@ == a.dims@,
        forall|i: int, j: int, k: int, l: int|
            a.has(i, j, k, l) ==> exp_gives(a.at(i, j, k, l), #[trigger] r.at(i, j, k, l)),
{
    let r = Tensor { dims: a.dims, bits: exp_of(&a.bits) };
    assert forall|i: int, j: int, k: int, l: int| a.has(i, j, k, l) implies exp_gives(
        a.at(i, j, k, l),
        #[trigger] r.at(i, j, k, l),
    ) by {
        reveal(elem4);
        lemma_offset4(a.dims@, i, j, k, l);
    }
    r
}

/// Element-wise natural logarithm.
pub(crate) fn ln4(a: &Tensor<4>) -> (r: Tensor<4>)
    requires
        a.wf(),
    ensures
        r.wf(),
        r.dims@ == a.dims@,
        forall|i: int, j: int, k: int, l: int|
            a.has(i, j, k, l) ==> ln_gives(a.at(i, j, k, l), #[trigger] r.at(i, j, k, l)),
{
    let r = Tensor { dims: a.dims, bits: ln_of(&a.bits) };
    assert forall|i: int, j: int, k: int, l: int| a.has(i, j, k, l) implies ln_gives(
        a.at(i, j, k, l),
        #[trigger] r.at(i, j, k, l),
    ) by {
        reveal(elem4);
        lemma_offset4(a.dims@, i, j, k, l);
    }
    r
}

/// Element-wise logistic function.
pub(crate) fn sigmoid4(a: &Tensor<4>) -> (r: Tensor<4>)
    requires
        a.wf(),
    ensures
        r.wf(),
        r.dims@ == a.dims@,
        forall|i: int, j: int, k: int, l: int|
            a.has(i, j, k, l) ==> sigmoid_gives(a.at(i, j, k, l), #[trigger] r.at(i, j, k, l)),
{
    let r = Tensor { dims: a.dims, bits: sigmoid_of(&a.bits) };
    assert forall|i: int, j: int, k: int, l: int| a.has(i, j, k, l) implies sigmoid_gives(
        a.at(i, j, k, l),
        #[trigger] r.at(i, j, k, l),
    ) by {
        reveal(elem4);
        lemma_offset4(a.dims@, i, j, k, l);
    }
    r
}

/// Element-wise softplus.
pub(crate) fn softplus4(a: &Tensor<4>, beta: F64) -> (r: Tensor<4>)
    requires
        a.wf(),
    ensures
        r.wf(),
        r.dims@ == a.dims@,
        forall|i: int, j: int, k: int, l: int|
            a.has(i, j, k, l) ==> softplus_gives(a.at(i, j, k, l), beta.bits, #[trigger] r.at(i, j, k, l)),
{
    let r = Tensor { dims: a.dims, bits: softplus_of(&a.bits, beta) };
    assert forall|i: int, j: int, k: int, l: int| a.has(i, j, k, l) implies softplus_gives(
        a.at(i, j, k, l),
        beta.bits,
        #[trigger] r.at(i, j, k, l),
    ) by {
        reveal(elem4);
        lemma_offset4(a.dims@, i, j, k, l);
    }
    r
}

/// Element-wise logistic function.
pub(crate) fn sigmoid3(a: &Tensor<3>) -> (r: Tensor<3>)
    requires
        a.wf(),
    ensures
        r.wf(),
        r.dims@ == a.dims@,
        forall|i: int, j: int, k: int|
            a.has(i, j, k) ==> sigmoid_gives(a.at(i, j, k), #[trigger] r.at(i, j, k)),
{
    let r = Tensor { dims: a.dims, bits: sigmoid_of(&a.bits) };
    assert forall|i: int, j: int, k: int| a.has(i, j, k) implies sigmoid_gives(
        a.at(i, j, k),
        #[trigger] r.at(i, j, k),
    ) by {
        reveal(elem3);
        lemma_offset3(a.dims@, i, j, k);
    }
    r
}

/// Element-wise SiLU.
pub(crate) fn silu3(a: &Tensor<3>) -> (r: Tensor<3>)
    requires
        a.wf(),
    ensures
        r.wf(),
        r.dims@ == a.dims@,
        forall|i: int, j: int, k: int|
            a.has(i, j, k) ==> silu_gives(a.at(i, j, k), #[trigger] r.at(i, j, k)),
{
    let r = Tensor { dims: a.dims, bits: silu_of(&a.bits) };
    assert forall|i: int, j: int, k: int| a.has(i, j, k) implies silu_gives(
        a.at(i, j, k),
        #[trigger] r.at(i, j, k),
    ) by {
        reveal(elem3);
        lemma_offset3(a.dims@, i, j, k);
    }
    r
}

/// Inserts an axis of extent one before the last.
pub(crate) fn as_rows(x: Tensor<3>) -> (r: Tensor<4>)
    requires
        x.wf(),
    ensures
        r.shaped(x.dims@[0] as int, x.dims@[1] as int, 1, x.dims@[2] as int),
        forall|i: int, j: int, k: int| #[trigger] r.at(i, j, 0, k) == x.at(i, j, k),
{
    let dims = [x.dims[0], x.dims[1], 1, x.dims[2]];
    proof {
        reveal(elem3);
        reveal(elem4);
        lemma_numel3(x.dims@);
        lemma_numel4(dims@);
        let d = dims@;
        assert(d[0] * d[1] * d[2] == d[0] * d[1]) by (nonlinear_arith)
            requires
                d[2] == 1,
        ;
        assert forall|i: int, j: int, k: int| #[trigger]
            crate::tensor::offset4(d, i, j, 0, k) == (i * x.dims@[1] + j) * x.dims@[2] + k by {
            assert((i * d[1] + j) * d[2] == i * d[1] + j) by (nonlinear_arith)
                requires
                    d[2] == 1,
            ;
        }
    }
    Tensor { dims, bits: x.bits }
}

/// Appends an axis of extent one.
pub(crate) fn as_cols(x: Tensor<3>) -> (r: Tensor<4>)
    requires
        x.wf(),
    ensures
        r.shaped(x.dims@[0] as int, x.dims@[1] as int, x.dims@[2] as int, 1),
        forall|i: int, j: int, k: int| #[trigger] r.at(i, j, k, 0) == x.at(i, j, k),
{
    let dims = [x.dims[0], x.dims[1], x.dims[2], 1];
    proof {
        reveal(elem3);
        reveal(elem4);
        lemma_numel3(x.dims@);
        lemma_numel4(dims@);
        let d = dims@;
        assert(d[0] * d[1] * d[2] * d[3] == d[0] * d[1] * d[2]) by (nonlinear_arith)
            requires
                d[3] == 1,
        ;
    }
    Tensor { dims, bits: x.bits }
}

/// Drops an axis of extent one before the last.
pub(crate) fn from_rows(x: Tensor<4>) -> (r: Tensor<3>)
    requires
        x.wf(),
        x.dims@[2] == 1,
    ensures
        r.shaped(x.dims@[0] as int, x.dims@[1] as int, x.dims@[3] as int),
        forall|i: int, j: int, k: int| #[trigger] r.at(i, j, k) == x.at(i, j, 0, k),
{
    let dims = [x.dims[0], x.dims[1], x.dims[3]];
    proof {
        reveal(elem3);
        reveal(elem4);
        lemma_numel4(x.dims@);
        lemma_numel3(dims@);
    }
    Tensor { dims, bits: x.bits }
}

/// Exchanges a last axis of extent one with the one before it.
pub(crate) fn cols_to_rows(x: Tensor<4>) -> (r: Tensor<4>)
    requires
        x.wf(),
        x.dims@[3] == 1,
    ensures
        r.shaped(x.dims@[0] as int, x.dims@[1] as int, 1, x.dims@[2] as int),
        forall|i: int, j: int, k: int| #[trigger] r.at(i, j, 0, k) == x.at(i, j, k, 0),
{
    let dims = [x.dims[0], x.dims[1], 1, x.dims[2]];
    proof {
        reveal(elem4);
        lemma_numel4(x.dims@);
        lemma_numel4(dims@);
        let d = dims@;
        assert(d[0] * d[1] * d[2] == d[0] * d[1]) by (nonlinear_arith)
            requires
                d[2] == 1,
        ;
        let e = x.dims@;
        assert(e[0] * e[1] * e[2] * e[3] == e[0] * e[1] * e[2]) by (nonlinear_arith)
            requires
                e[3] == 1,
        ;
    }
    Tensor { dims, bits: x.bits }
}

/// Exchanges the last two axes.
pub(crate) fn transpose(x: &Tensor<4>) -> (r: Tensor<4>)
    requires
        x.wf(),
    ensures
        r.shaped(x.dims@[0] as int, x.dims@[1] as int, x.dims@[3] as int, x.dims@[2] as int),
        forall|i: int, j: int, k: int, l: int|
            r.has(i, j, k, l) ==> #[trigger] r.at(i, j, k, l) == x.at(i, j, l, k),
{
    let dims = [x.dims[0], x.dims[1], x.dims[3], x.dims[2]];
    proof {
        assert(x.bits.len() <= usize::MAX);
        lemma_numel4(x.dims@);
        lemma_numel4(dims@);
        let d = x.dims@;
        assert(d[0] * d[1] * d[2] * d[3] == d[0] * d[1] * d[3] * d[2]) by (nonlinear_arith);
    }
    let f = |i: usize, j: usize, k: usize, l: usize| -> (v: u32)
        requires
            x.wf(),
            x.has(i as int, j as int, l as int, k as int),
        ensures
            num(v) == x.at(i as int, j as int, l as int, k as int),
    {
        x.get(i, j, l, k)
    };
    proof {
        reveal(elem4);
    }
    build4(dims, f)
}

/// Token `t` of a tensor with key channels last, as columns repeated over `n` value
/// channels.
pub(crate) fn over_values(x: &Tensor<4>, t: usize, n: usize) -> (r: Tensor<4>)
    requires
        x.wf(),
        t < x.dims@[2],
        x.dims@[0] * x.dims@[1] * x.dims@[3] * n <= usize::MAX,
    ensures
        r.shaped(x.dims@[0] as int, x.dims@[1] as int, x.dims@[3] as int, n as int),
        forall|i: int, j: int, k: int, l: int|
            r.has(i, j, k, l) ==> #[trigger] r.at(i, j, k, l) == x.at(i, j, t as int, k),
{
    let dims = [x.dims[0], x.dims[1], x.dims[3], n];
    proof {
        lemma_numel4(dims@);
    }
    let f = |i: usize, j: usize, k: usize, l: usize| -> (v: u32)
        requires
            x.wf(),
            x.has(i as int, j as int, t as int, k as int),
        ensures
            num(v) == x.at(i as int, j as int, t as int, k as int),
    {
        x.get(i, j, t, k)
    };
    proof {
        reveal(elem4);
    }
    build4(dims, f)
}

/// Token `t` of a tensor with value channels last, as rows repeated over `n` key
/// channels.
pub(crate) fn over_keys(x: &Tensor<4>, t: usize, n: usize) -> (r: Tensor<4>)
    requires
        x.wf(),
        t < x.dims@[2],
        x.dims@[0] * x.dims@[1] * n * x.dims@[3] <= usize::MAX,
    ensures
        r.shaped(x.dims@[0] as int, x.dims@[1] as int, n as int, x.dims@[3] as int),
        forall|i: int, j: int, k: int, l: int|
            r.has(i, j, k, l) ==> #[trigger] r.at(i, j, k, l) == x.at(i, j, t as int, l),
{
    let dims = [x.dims[0], x.dims[1], n, x.dims[3]];
    proof {
        lemma_numel4(dims@);
    }
    let f = |i: usize, j: usize, k: usize, l: usize| -> (v: u32)
        requires
            x.wf(),
            x.has(i as int, j as int, t as int, l as int),
        ensures
            num(v) == x.at(i as int, j as int, t as int, l as int),
    {
        x.get(i, j, t, l)
    };
    proof {
        reveal(elem4);
    }
    build4(dims, f)
}

/// A tensor with one value everywhere.
pub(crate) fn constant(dims: [usize; 4], value: u32) -> (r: Tensor<4>)
    requires
        numel(dims@) <= usize::MAX,
    ensures
        r.wf(),
        r.dims@ == dims@,
        forall|i: int, j: int, k: int, l: int|
            r.has(i, j, k, l) ==> #[trigger] r.at(i, j, k, l) == num(value),
{
    let f = |i: usize, j: usize, k: usize, l: usize| -> (v: u32)
        ensures
            v == value,
    {
        value
    };
    proof {
        reveal(elem4);
    }
    build4(dims, f)
}

/// Splits the last axis into `h` groups of `c` channels.
pub(crate) fn split_channels(x: Tensor<3>, h: usize, c: usize) -> (r: Tensor<4>)
    requires
        x.wf(),
        x.dims@[2] == h * c,
    ensures
        r.shaped(x.dims@[0] as int, x.dims@[1] as int, h as int, c as int),
        forall|i: int, j: int, k: int, l: int| #[trigger]
            r.at(i, j, k, l) == x.at(i, j, k * c + l),
{
    let dims = [x.dims[0], x.dims[1], h, c];
    proof {
        reveal(elem3);
        reveal(elem4);
        lemma_numel3(x.dims@);
        lemma_numel4(dims@);
        let d = x.dims@;
        assert(d[0] * d[1] * (h * c) == d[0] * d[1] * h * c) by (nonlinear_arith);
        assert forall|i: int, j: int, k: int, l: int| #[trigger]
            crate::tensor::offset4(dims@, i, j, k, l) == (i * d[1] + j) * d[2] + (k * c + l) by {
            let m = i * d[1] + j;
            assert((m * h + k) * c + l == m * (h * c) + (k * c + l)) by (nonlinear_arith);
        }
    }
    Tensor { dims, bits: x.bits }
}

/// As many copies of a value as asked for.
pub(crate) fn repeated(n: usize, value: u32) -> (r: Vec<u32>)
    ensures
        r@ == Seq::new(n as nat, |i: int| value),
{
    let mut r: Vec<u32> = Vec::new();
    let mut i: usize = 0;
    while i < n
        invariant
            i <= n,
            r@ == Seq::new(i as nat, |k: int| value),
        decreases n - i,
    {
        r.push(value);
        i = i + 1;
    }
    r
}

/// Groups the channels of every token by head: `heads` heads of `c` channels, `rep`
/// consecutive heads taking the same group.
pub(crate) fn split_heads(x: &Tensor<3>, heads: usize, rep: usize, c: usize) -> (r: Tensor<4>)
    requires
        x.wf(),
        rep > 0,
        heads as int % rep as int == 0,
        x.dims@[2] == (heads as int / rep as int) * c,
        x.dims@[0] * heads * x.dims@[1] * c <= usize::MAX,
    ensures
        heads_of(*x, heads as int, rep as int, c as int, r),
{
    let dims = [x.dims[0], heads, x.dims[1], c];
    let groups = heads / rep;
    proof {
        lemma_numel4(dims@);
    }
    let f = |i: usize, j: usize, t: usize, k: usize| -> (v: u32)
        requires
            x.wf(),
            rep > 0,
            groups == heads as int / rep as int,
            heads as int % rep as int == 0,
            x.dims@[2] == groups * c,
            i < x.dims@[0],
            j < heads,
            t < x.dims@[1],
            k < c,
        ensures
            num(v) == x.at(i as int, t as int, (j as int / rep as int) * c + k),
    {
        let g = j / rep;
        proof {
            lemma_group(j as int, heads as int, rep as int);
            lemma_block(g as int, k as int, groups as int, c as int);
            assert(0 <= g * c) by (nonlinear_arith)
                requires
                    0 <= g,
                    0 <= c,
            ;
        }
        x.get(i, t, g * c + k)
    };
    proof {
        reveal(elem4);
    }
    build4(dims, f)
}

/// Moves the heads before the tokens, `rep` consecutive heads taking the same one.
pub(crate) fn repeat_heads(x: &Tensor<4>, heads: usize, rep: usize) -> (r: Tensor<4>)
    requires
        x.wf(),
        rep > 0,
        heads as int % rep as int == 0,
        x.dims@[2] == heads as int / rep as int,
        x.dims@[0] * heads * x.dims@[1] * x.dims@[3] <= usize::MAX,
    ensures
        r.shaped(x.dims@[0] as int, heads as int, x.dims@[1] as int, x.dims@[3] as int),
        forall|i: int, j: int, t: int, k: int|
            r.has(i, j, t, k) ==> #[trigger] r.at(i, j, t, k) == x.at(i, t, j / rep as int, k),
{
    let dims = [x.dims[0], heads, x.dims[1], x.dims[3]];
    proof {
        lemma_numel4(dims@);
    }
    let f = |i: usize, j: usize, t: usize, k: usize| -> (v: u32)
        requires
            x.wf(),
            rep > 0,
            heads as int % rep as int == 0,
            x.dims@[2] == heads as int / rep as int,
            i < x.dims@[0],
            j < heads,
            t < x.dims@[1],
            k < x.dims@[3],
        ensures
            num(v) == x.at(i as int, t as int, j as int / rep as int, k as int),
    {
        proof {
            lemma_group(j as int, heads as int, rep as int);
        }
        x.get(i, t, j / rep, k)
    };
    proof {
        reveal(elem4);
    }
    build4(dims, f)
}

/// One number per token and head, over `c` channels, `rep` consecutive heads taking the
/// same number.
pub(crate) fn spread_strength(x: &Tensor<3>, heads: usize, rep: usize, c: usize) -> (r: Tensor<4>)
    requires
        x.wf(),
        rep > 0,
        heads as int % rep as int == 0,
        x.dims@[2] == heads as int / rep as int,
        x.dims@[0] * heads * x.dims@[1] * c <= usize::MAX,
    ensures
        strengths_of(*x, heads as int, rep as int, c as int, r),
{
    let dims = [x.dims[0], heads, x.dims[1], c];
    proof {
        lemma_numel4(dims@);
    }
    let f = |i: usize, j: usize, t: usize, k: usize| -> (v: u32)
        requires
            x.wf(),
            rep > 0,
            heads as int % rep as int == 0,
            x.dims@[2] == heads as int / rep as int,
            i < x.dims@[0],
            j < heads,
            t < x.dims@[1],
        ensures
            num(v) == x.at(i as int, t as int, j as int / rep as int),
    {
        proof {
            lemma_group(j as int, heads as int, rep as int);
        }
        x.get(i, t, j / rep)
    };
    proof {
        reveal(elem4);
    }
    build4(dims, f)
}

/// Moves the tokens before the heads and joins the channels of all heads.
pub(crate) fn merge_heads(x: &Tensor<4>) -> (r: Tensor<3>)
    requires
        x.wf(),
        x.dims@[3] > 0,
        x.dims@[1] * x.dims@[3] <= usize::MAX,
    ensures
        r.shaped(x.dims@[0] as int, x.dims@[2] as int, x.dims@[1] * x.dims@[3]),
        forall|i: int, t: int, n: int|
            r.has(i, t, n) ==> #[trigger] r.at(i, t, n) == x.at(
                i,
                n / x.dims@[3] as int,
                t,
                n % x.dims@[3] as int,
            ),
{
    let c = x.dims[3];
    let dims = [1, x.dims[0], x.dims[2], x.dims[1] * c];
    proof {
        assert(x.bits.len() <= usize::MAX);
        lemma_numel4(x.dims@);
        lemma_numel4(dims@);
        let d = x.dims@;
        assert(1 * d[0] * d[2] * (d[1] * d[3]) == d[0] * d[1] * d[2] * d[3]) by (nonlinear_arith);
    }
    let f = |o: usize, i: usize, t: usize, n: usize| -> (v: u32)
        requires
            x.wf(),
            c > 0,
            c == x.dims@[3],
            i < x.dims@[0],
            t < x.dims@[2],
            n < x.dims@[1] * c,
        ensures
            num(v) == x.at(i as int, n as int / c as int, t as int, n as int % c as int),
    {
        proof {
            assert(0 <= n as int / c as int) by (nonlinear_arith)
                requires
                    c > 0,
                    n >= 0,
            ;
            assert(n as int / (c as int) < x.dims@[1]) by (nonlinear_arith)
                requires
                    c > 0,
                    n < x.dims@[1] * c,
            ;
        }
        x.get(i, n / c, t, n % c)
    };
    proof {
        reveal(elem4);
    }
    drop_first_axis(build4(dims, f))
}

/// A head's group lies among the groups.
proof fn lemma_group(j: int, heads: int, rep: int)
    requires
        0 <= j < heads,
        rep > 0,
        heads % rep == 0,
    ensures
        0 <= j / rep < heads / rep,
{
    assert(0 <= j / rep < heads / rep) by (nonlinear_arith)
        requires
            0 <= j < heads,
            rep > 0,
            heads % rep == 0,
    ;
}

/// The tokens of one head, one after the other.
pub(crate) fn join_tokens(parts: &Vec<Tensor<4>>, dims: [usize; 4]) -> (r: Tensor<4>)
    requires
        parts@.len() == dims@[2],
        numel(dims@) <= usize::MAX,
        forall|t: int|
            0 <= t < parts@.len() ==> (#[trigger] parts@[t]).shaped(
                dims@[0] as int,
                dims@[1] as int,
                1,
                dims@[3] as int,
            ),
    ensures
        r.wf(),
        r.dims@ == dims@,
        forall|i: int, j: int, t: int, l: int|
            r.has(i, j, t, l) ==> #[trigger] r.at(i, j, t, l) == parts@[t].at(i, j, 0, l),
{
    let f = |i: usize, j: usize, t: usize, l: usize| -> (v: u32)
        requires
            t < parts@.len(),
            parts@[t as int].wf(),
            parts@[t as int].has(i as int, j as int, 0, l as int),
        ensures
            num(v) == parts@[t as int].at(i as int, j as int, 0, l as int),
    {
        parts[t].get(i, j, 0, l)
    };
    proof {
        reveal(elem4);
    }
    build4(dims, f)
}

/// A tensor over one token and all value channels of a tensor with the tokens third.
pub(crate) fn token(x: &Tensor<4>, t: usize) -> (r: Tensor<4>)
    requires
        x.wf(),
        t < x.dims@[2],
    ensures
        r.shaped(x.dims@[0] as int, x.dims@[1] as int, 1, x.dims@[3] as int),
        forall|i: int, j: int, l: int|
            r.has(i, j, 0, l) ==> #[trigger] r.at(i, j, 0, l) == x.at(i, j, t as int, l),
{
    let dims = [x.dims[0], x.dims[1], 1, x.dims[3]];
    proof {
        assert(x.bits.len() <= usize::MAX);
        lemma_numel4(x.dims@);
        lemma_numel4(dims@);
        let d = x.dims@;
        assert(d[0] * d[1] * 1 * d[3] <= d[0] * d[1] * d[2] * d[3]) by (nonlinear_arith)
            requires
                d[2] >= 1,
                d[0] >= 0,
                d[1] >= 0,
                d[3] >= 0,
        ;
    }
    let f = |i: usize, j: usize, k: usize, l: usize| -> (v: u32)
        requires
            x.wf(),
            x.has(i as int, j as int, t as int, l as int),
        ensures
            num(v) == x.at(i as int, j as int, t as int, l as int),
    {
        x.get(i, j, t, l)
    };
    proof {
        reveal(elem4);
    }
    build4(dims, f)
}

/// `r` holds the channels of `x` by head: `heads` heads of `c` channels, `rep`
/// consecutive heads sharing a group.
pub open spec fn heads_of(x: Tensor<3>, heads: int, rep: int, c: int, r: Tensor<4>) -> bool {
    &&& r.shaped(x.dims@[0] as int, heads, x.dims@[1] as int, c)
    &&& forall|i: int, j: int, t: int, k: int|
        r.has(i, j, t, k) ==> #[trigger] r.at(i, j, t, k) == x.at(i, t, (j / rep) * c + k)
}

/// `r` repeats the number that `x` has for a token and a head over `c` channels, `rep`
/// consecutive heads sharing a number.
pub open spec fn strengths_of(x: Tensor<3>, heads: int, rep: int, c: int, r: Tensor<4>) -> bool {
    &&& r.shaped(x.dims@[0] as int, heads, x.dims@[1] as int, c)
    &&& forall|i: int, j: int, t: int, k: int|
        r.has(i, j, t, k) ==> #[trigger] r.at(i, j, t, k) == x.at(i, t, j / rep)
}

} // verus!
