//! Short causal convolutions.
use crate::backend::{f32_add, f32_mul, silu_gives};
use crate::float::num;
use crate::ops::{add4, constant, mul4, silu3};
use crate::tensor::{build4, drop_first_axis, elem4, lemma_numel3, lemma_numel4, Tensor};
use vstd::prelude::*;

verus! {

/// Taps of a short convolution.
pub const CONV_TAPS: usize = 4;

/// The token under tap `n` of a causal convolution at token `t`: the last tap lies on the
/// token itself, and the first token stands for those before the sequence.
pub open spec fn tap_token(t: int, n: int) -> int {
    if t + n - 3 < 0 {
        0
    } else {
        t + n - 3
    }
}

/// The inputs under the four taps of a causal convolution at token `t` of channel `c`.
pub open spec fn conv_window(x: Tensor<3>, i: int, t: int, c: int) -> Seq<u32> {
    Seq::new(4, |n: int| x.at(i, tap_token(t, n), c))
}

/// The products of inputs and taps, added up from the first to the last of four.
pub open spec fn tap_sum(window: Seq<u32>, taps: Seq<u32>) -> u32 {
    f32_add(
        f32_add(
            f32_add(
                f32_add(0, f32_mul(window[0], taps[0])),
                f32_mul(window[1], taps[1]),
            ),
            f32_mul(window[2], taps[2]),
        ),
        f32_mul(window[3], taps[3]),
    )
}

/// `r` is a value that a short convolution may give for the inputs under its taps: the
/// SiLU of their sum.
pub open spec fn conv_gives(window: Seq<u32>, taps: Seq<u32>, r: u32) -> bool {
    silu_gives(tap_sum(window, taps), r)
}

/// The inputs under tap `n`, times the tap.
fn tap_products(x: &Tensor<3>, taps: &Tensor<2>, n: usize) -> (r: Tensor<4>)
    requires
        x.wf(),
        taps.shaped(x.dims@[2] as int, CONV_TAPS as int),
        n < CONV_TAPS,
    ensures
        r.shaped(1, x.dims@[0] as int, x.dims@[1] as int, x.dims@[2] as int),
        forall|i: int, t: int, c: int|
            x.has(i, t, c) ==> #[trigger] r.at(0, i, t, c) == f32_mul(
                x.at(i, tap_token(t, n as int), c),
                taps.at(c, n as int),
            ),
{
    let dims = [1, x.dims[0], x.dims[1], x.dims[2]];
    proof {
        assert(x.bits.len() <= usize::MAX);
        lemma_numel3(x.dims@);
        lemma_numel4(dims@);
    }
    let f = |o: usize, i: usize, t: usize, c: usize| -> (v: u32)
        requires
            x.wf(),
            x.has(i as int, t as int, c as int),
            n < 4,
        ensures
            num(v) == x.at(i as int, tap_token(t as int, n as int), c as int),
    {
        let at = if t < 3 - n {
            0
        } else {
            t - (3 - n)
        };
        x.get(i, at, c)
    };
    let g = |o: usize, i: usize, t: usize, c: usize| -> (v: u32)
        requires
            taps.wf(),
            c < taps.dims@[0],
            n < taps.dims@[1],
        ensures
            num(v) == taps.at(c as int, n as int),
    {
        taps.get(c, n)
    };
    proof {
        reveal(elem4);
    }
    let inputs = build4(dims, f);
    let weights = build4(dims, g);
    proof {
        assert forall|i: int, t: int, c: int| x.has(i, t, c) implies #[trigger] inputs.at(0, i, t, c)
            == x.at(i, tap_token(t, n as int), c) by {
            assert(f.ensures(
                (0usize, i as usize, t as usize, c as usize),
                inputs.bits@[crate::tensor::offset4(dims@, 0, i, t, c)],
            ));
        }
        assert forall|i: int, t: int, c: int| x.has(i, t, c) implies #[trigger] weights.at(
            0,
            i,
            t,
            c,
        ) == taps.at(c, n as int) by {
            assert(g.ensures(
                (0usize, i as usize, t as usize, c as usize),
                weights.bits@[crate::tensor::offset4(dims@, 0, i, t, c)],
            ));
        }
    }
    mul4(&inputs, &weights)
}

/// Causal depthwise convolution with four taps, starting from zero and adding one tap
/// after the other, and SiLU.
pub(crate) fn short_conv(x: &Tensor<3>, taps: &Tensor<2>) -> (r: Tensor<3>)
    requires
        x.wf(),
        taps.shaped(x.dims@[2] as int, CONV_TAPS as int),
    ensures
        r.wf(),
        r.dims@ == x.dims@,
        forall|i: int, t: int, c: int|
            r.has(i, t, c) ==> conv_gives(
                conv_window(*x, i, t, c),
                taps.row(c),
                #[trigger] r.at(i, t, c),
            ),
{
    let p0 = tap_products(x, taps, 0);
    let p1 = tap_products(x, taps, 1);
    let p2 = tap_products(x, taps, 2);
    let p3 = tap_products(x, taps, 3);
    assert(p0.bits.len() <= usize::MAX);
    let zero = constant(p0.dims, 0);
    let sum = add4(&add4(&add4(&add4(&zero, &p0), &p1), &p2), &p3);
    let sum = drop_first_axis(sum);
    let r = silu3(&sum);
    proof {
        assert(sum.dims@ =~= x.dims@);
        assert forall|i: int, t: int, c: int| r.has(i, t, c) implies conv_gives(
            conv_window(*x, i, t, c),
            taps.row(c),
            #[trigger] r.at(i, t, c),
        ) by {
            assert(p0.has(0, i, t, c));
            let window = conv_window(*x, i, t, c);
            let row = taps.row(c);
            assert(p0.at(0, i, t, c) == f32_mul(window[0], row[0]));
            assert(p1.at(0, i, t, c) == f32_mul(window[1], row[1]));
            assert(p2.at(0, i, t, c) == f32_mul(window[2], row[2]));
            assert(p3.at(0, i, t, c) == f32_mul(window[3], row[3]));
            assert(sum.at(i, t, c) == tap_sum(window, row));
        }
    }
    r
}

} // verus!
