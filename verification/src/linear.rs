//! Linear maps without a bias.
use crate::backend::{draw_normal, linear, matmul_gives, normal_gives};
use crate::float::{num, F64};
use crate::tensor::{laid_out, lemma_room3, matrix_fits, nonempty, Tensor};
use vstd::prelude::*;

verus! {

/// Standard deviation of freshly drawn weights, `0.02`, as binary64 bits.
pub const INIT_STD: u64 = 0x3f94_7ae1_47ae_147b;

/// Every element of `w` is a draw from the normal distribution around zero with the
/// standard deviation of fresh weights.
pub open spec fn drawn(w: Tensor<2>) -> bool {
    forall|i: int|
        0 <= i < w.bits@.len() ==> normal_gives(0, INIT_STD, num(#[trigger] w.bits@[i]))
}

/// A linear map: a weight matrix `[d_input, d_output]`.
#[derive(Debug)]
pub struct Linear {
    pub weight: Tensor<2>,
}

impl Linear {
    /// Well-formed, from `d_input` to `d_output` channels.
    pub open spec fn shaped(&self, d_input: int, d_output: int) -> bool {
        self.weight.shaped(d_input, d_output)
    }

    /// `y` is what the map may give for `x`: every token's channels times every column
    /// of the weights.
    pub open spec fn maps(&self, x: Tensor<3>, y: Tensor<3>) -> bool {
        &&& y.shaped(x.dims@[0] as int, x.dims@[1] as int, self.weight.dims@[1] as int)
        &&& forall|i: int, j: int, k: int|
            y.has(i, j, k) ==> matmul_gives(
                x.row(i, j),
                self.weight.col(k),
                #[trigger] y.at(i, j, k),
            )
    }

    /// A map with weights drawn from a normal distribution around zero.
    pub fn new(d_input: usize, d_output: usize) -> (r: Self)
        requires
            matrix_fits(d_input as int, d_output as int),
        ensures
            r.shaped(d_input as int, d_output as int),
            drawn(r.weight),
    {
        Linear {
            weight: draw_normal(d_input, d_output, F64 { bits: 0 }, F64 { bits: INIT_STD }),
        }
    }

    /// Applies the map to every token.
    pub fn forward(&self, x: &Tensor<3>) -> (y: Tensor<3>)
        requires
            x.wf(),
            self.weight.wf(),
            x.dims@[2] == self.weight.dims@[0],
            x.dims@[1] > 0,
            self.weight.dims@[0] > 0,
            self.weight.dims@[1] > 0,
            laid_out(x.dims@),
            nonempty(x.dims@[0] as int) * x.dims@[1] * self.weight.dims@[1] <= isize::MAX,
        ensures
            self.maps(*x, y),
    {
        proof {
            lemma_room3(seq![x.dims@[0], x.dims@[1], self.weight.dims@[1]]);
        }
        linear(x, &self.weight)
    }
}

} // verus!
