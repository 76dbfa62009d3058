//! What the layer's numbers stand for.
//!
//! Every number of the layer is computed from other numbers, one rounded operation after
//! the other. A [`Meaning`] ties a number to the real that the same operations have as
//! their exact value. It is a relation that the operations keep, and says nothing of the
//! rounding: the laws below hold whatever the machine rounds to, on every input.
use crate::algebra::{lemma_total_same, total};
use crate::backend::{
    exp_gives, f32_add, f32_div, f32_mul, f32_sqrt, f32_sub, l2_gives, ln_gives, matmul_gives,
    mean_gives, sigmoid_gives, silu_gives, softplus_gives, squares, sum_gives,
};
use crate::calculus::Reals;
use crate::float::{narrowed, negated, ONE_32};
use crate::tensor::Tensor;
use vstd::prelude::*;

pub mod attention;
pub mod chunk;
pub mod formulas;
pub mod layer;
pub mod output;
pub mod projection;
pub mod step;

verus! {

/// The product of two rows of `n` reals.
pub open spec fn dot(n: nat, f: spec_fn(int) -> real, g: spec_fn(int) -> real) -> real {
    total(n, |i: int| f(i) * g(i))
}

/// Row `i` of a matrix.
pub open spec fn row(x: spec_fn(int, int) -> real, i: int) -> spec_fn(int) -> real {
    |j: int| x(i, j)
}

/// Column `j` of a matrix.
pub open spec fn column(x: spec_fn(int, int) -> real, j: int) -> spec_fn(int) -> real {
    |i: int| x(i, j)
}

/// A relation between numbers and the reals that they stand for.
pub struct Meaning {
    pub stands: spec_fn(u32, real) -> bool,
    pub rs: Reals,
}

impl Meaning {
    /// `x` stands for `a`.
    pub open spec fn means(&self, x: u32, a: real) -> bool {
        (self.stands)(x, a)
    }

    /// The numbers of `s` stand for `f(0)`, `f(1)`, ...
    pub open spec fn row_means(&self, s: Seq<u32>, f: spec_fn(int) -> real) -> bool {
        forall|i: int| 0 <= i < s.len() ==> self.means(#[trigger] s[i], f(i))
    }

    /// A sum stands for the sum, and so for the other operations of one or two numbers.
    pub open spec fn keeps_operations(&self) -> bool {
        &&& forall|x: u32, y: u32, a: real, b: real|
            #![trigger f32_add(x, y), self.means(x, a), self.means(y, b)]
            self.means(x, a) && self.means(y, b) ==> self.means(f32_add(x, y), a + b)
        &&& forall|x: u32, y: u32, a: real, b: real|
            #![trigger f32_sub(x, y), self.means(x, a), self.means(y, b)]
            self.means(x, a) && self.means(y, b) ==> self.means(f32_sub(x, y), a - b)
        &&& forall|x: u32, y: u32, a: real, b: real|
            #![trigger f32_mul(x, y), self.means(x, a), self.means(y, b)]
            self.means(x, a) && self.means(y, b) ==> self.means(f32_mul(x, y), a * b)
        &&& forall|x: u32, y: u32, a: real, b: real|
            #![trigger f32_div(x, y), self.means(x, a), self.means(y, b)]
            self.means(x, a) && self.means(y, b) ==> self.means(f32_div(x, y), a / b)
        &&& forall|x: u32, a: real|
            #![trigger f32_sqrt(x), self.means(x, a)]
            self.means(x, a) ==> self.means(f32_sqrt(x), (self.rs.sqrt)(a))
        &&& forall|x: u32, a: real|
            #![trigger negated(x), self.means(x, a)]
            self.means(x, a) ==> self.means(negated(x), -a)
        &&& forall|x: u32, r: u32, a: real|
            #![trigger exp_gives(x, r), self.means(x, a)]
            exp_gives(x, r) && self.means(x, a) ==> self.means(r, (self.rs.exp)(a))
        &&& forall|x: u32, r: u32, a: real|
            #![trigger ln_gives(x, r), self.means(x, a)]
            ln_gives(x, r) && self.means(x, a) ==> self.means(r, (self.rs.ln)(a))
    }

    /// Sums, means and products of rows stand for those.
    pub open spec fn keeps_reductions(&self) -> bool {
        &&& forall|s: Seq<u32>, r: u32, f: spec_fn(int) -> real|
            #![trigger sum_gives(s, r), self.row_means(s, f)]
            sum_gives(s, r) && self.row_means(s, f) ==> self.means(r, total(s.len(), f))
        &&& forall|s: Seq<u32>, r: u32, f: spec_fn(int) -> real|
            #![trigger mean_gives(s, r), self.row_means(s, f)]
            mean_gives(s, r) && self.row_means(s, f) ==> self.means(
                r,
                total(s.len(), f) / (s.len() as real),
            )
        &&& forall|
            s: Seq<u32>,
            w: Seq<u32>,
            r: u32,
            f: spec_fn(int) -> real,
            g: spec_fn(int) -> real,
        |
            #![trigger matmul_gives(s, w, r), self.row_means(s, f), self.row_means(w, g)]
            matmul_gives(s, w, r) && s.len() == w.len() && self.row_means(s, f) && self.row_means(
                w,
                g,
            ) ==> self.means(r, dot(s.len(), f, g))
    }

    /// Whatever is computed from numbers stands for the same computed from reals.
    #[verifier::opaque]
    pub open spec fn computes(&self) -> bool {
        &&& self.means(0, 0real)
        &&& self.means(ONE_32, 1real)
        &&& self.keeps_operations()
        &&& self.keeps_reductions()
    }

    /// The elements of `x` stand for `f`.
    pub open spec fn means1(&self, x: Tensor<1>, f: spec_fn(int) -> real) -> bool {
        forall|i: int| 0 <= i < x.dims@[0] ==> self.means(#[trigger] x.at(i), f(i))
    }

    /// The elements of `x` stand for `f`.
    pub open spec fn means2(&self, x: Tensor<2>, f: spec_fn(int, int) -> real) -> bool {
        forall|i: int, j: int|
            0 <= i < x.dims@[0] && 0 <= j < x.dims@[1] ==> self.means(
                #[trigger] x.at(i, j),
                f(i, j),
            )
    }

    /// The elements of batch `b` of `x` stand for `f`.
    pub open spec fn means3(&self, x: Tensor<3>, b: int, f: spec_fn(int, int) -> real) -> bool {
        forall|i: int, j: int|
            0 <= i < x.dims@[1] && 0 <= j < x.dims@[2] ==> self.means(
                #[trigger] x.at(b, i, j),
                f(i, j),
            )
    }

    /// The elements of batch `b` of `x` stand for `f`.
    pub open spec fn means4(
        &self,
        x: Tensor<4>,
        b: int,
        f: spec_fn(int, int, int) -> real,
    ) -> bool {
        forall|i: int, j: int, k: int|
            0 <= i < x.dims@[1] && 0 <= j < x.dims@[2] && 0 <= k < x.dims@[3] ==> self.means(
                #[trigger] x.at(b, i, j, k),
                f(i, j, k),
            )
    }

    pub(crate) proof fn lemma_constants(&self)
        requires
            self.computes(),
        ensures
            self.means(0, 0real),
            self.means(ONE_32, 1real),
    {
        reveal(Meaning::computes);
    }

    pub(crate) proof fn lemma_add(&self, x: u32, a: real, y: u32, b: real)
        requires
            self.computes(),
            self.means(x, a),
            self.means(y, b),
        ensures
            self.means(f32_add(x, y), a + b),
    {
        reveal(Meaning::computes);
    }

    pub(crate) proof fn lemma_sub(&self, x: u32, a: real, y: u32, b: real)
        requires
            self.computes(),
            self.means(x, a),
            self.means(y, b),
        ensures
            self.means(f32_sub(x, y), a - b),
    {
        reveal(Meaning::computes);
    }

    pub(crate) proof fn lemma_mul(&self, x: u32, a: real, y: u32, b: real)
        requires
            self.computes(),
            self.means(x, a),
            self.means(y, b),
        ensures
            self.means(f32_mul(x, y), a * b),
    {
        reveal(Meaning::computes);
    }

    pub(crate) proof fn lemma_div(&self, x: u32, a: real, y: u32, b: real)
        requires
            self.computes(),
            self.means(x, a),
            self.means(y, b),
        ensures
            self.means(f32_div(x, y), a / b),
    {
        reveal(Meaning::computes);
    }

    pub(crate) proof fn lemma_sqrt(&self, x: u32, a: real)
        requires
            self.computes(),
            self.means(x, a),
        ensures
            self.means(f32_sqrt(x), (self.rs.sqrt)(a)),
    {
        reveal(Meaning::computes);
    }

    pub(crate) proof fn lemma_neg(&self, x: u32, a: real)
        requires
            self.computes(),
            self.means(x, a),
        ensures
            self.means(negated(x), -a),
    {
        reveal(Meaning::computes);
    }

    pub(crate) proof fn lemma_exp(&self, x: u32, a: real, r: u32)
        requires
            self.computes(),
            self.means(x, a),
            exp_gives(x, r),
        ensures
            self.means(r, (self.rs.exp)(a)),
    {
        reveal(Meaning::computes);
    }

    pub(crate) proof fn lemma_ln(&self, x: u32, a: real, r: u32)
        requires
            self.computes(),
            self.means(x, a),
            ln_gives(x, r),
        ensures
            self.means(r, (self.rs.ln)(a)),
    {
        reveal(Meaning::computes);
    }

    pub(crate) proof fn lemma_sum(&self, s: Seq<u32>, f: spec_fn(int) -> real, r: u32)
        requires
            self.computes(),
            self.row_means(s, f),
            sum_gives(s, r),
        ensures
            self.means(r, total(s.len(), f)),
    {
        reveal(Meaning::computes);
    }

    pub(crate) proof fn lemma_mean(&self, s: Seq<u32>, f: spec_fn(int) -> real, r: u32)
        requires
            self.computes(),
            self.row_means(s, f),
            mean_gives(s, r),
        ensures
            self.means(r, total(s.len(), f) / (s.len() as real)),
    {
        reveal(Meaning::computes);
    }

    pub(crate) proof fn lemma_matmul(
        &self,
        s: Seq<u32>,
        f: spec_fn(int) -> real,
        w: Seq<u32>,
        g: spec_fn(int) -> real,
        r: u32,
    )
        requires
            self.computes(),
            s.len() == w.len(),
            self.row_means(s, f),
            self.row_means(w, g),
            matmul_gives(s, w, r),
        ensures
            self.means(r, dot(s.len(), f, g)),
    {
        reveal(Meaning::computes);
    }

    pub(crate) proof fn lemma_sigmoid(&self, x: u32, a: real, r: u32)
        requires
            self.computes(),
            self.means(x, a),
            sigmoid_gives(x, r),
        ensures
            self.means(r, self.rs.logistic(a)),
    {
        let (e, l) = choose|e: u32, l: u32|
            {
                &&& #[trigger] exp_gives(negated(x), e)
                &&& #[trigger] ln_gives(f32_add(e, ONE_32), l)
                &&& exp_gives(negated(l), r)
            };
        let ea = (self.rs.exp)(-a);
        let la = (self.rs.ln)(ea + 1real);
        self.lemma_constants();
        self.lemma_neg(x, a);
        self.lemma_exp(negated(x), -a, e);
        self.lemma_add(e, ea, ONE_32, 1real);
        self.lemma_ln(f32_add(e, ONE_32), ea + 1real, l);
        self.lemma_neg(l, la);
        self.lemma_exp(negated(l), -la, r);
    }

    pub(crate) proof fn lemma_silu(&self, x: u32, a: real, r: u32)
        requires
            self.computes(),
            self.means(x, a),
            silu_gives(x, r),
        ensures
            self.means(r, a * self.rs.logistic(a)),
    {
        let s = choose|s: u32| #[trigger] sigmoid_gives(x, s) && r == f32_mul(x, s);
        self.lemma_sigmoid(x, a, s);
        self.lemma_mul(x, a, s, self.rs.logistic(a));
    }

    /// Softplus with a sharpness that stands for one.
    pub(crate) proof fn lemma_softplus(&self, x: u32, a: real, beta: u64, r: u32)
        requires
            self.computes(),
            self.means(x, a),
            narrowed(beta) == ONE_32,
            softplus_gives(x, beta, r),
        ensures
            self.means(r, self.rs.softplus(a)),
    {
        let b = narrowed(beta);
        let (e, l) = choose|e: u32, l: u32|
            {
                &&& #[trigger] exp_gives(f32_mul(x, b), e)
                &&& #[trigger] ln_gives(f32_add(e, ONE_32), l)
                &&& r == f32_div(l, b)
            };
        let y = (self.rs.exp)(a) + 1real;
        let z = (self.rs.ln)(y);
        self.lemma_constants();
        self.lemma_mul(x, a, b, 1real);
        assert(a * 1real == a) by (nonlinear_arith);
        self.lemma_exp(f32_mul(x, b), a, e);
        self.lemma_add(e, (self.rs.exp)(a), ONE_32, 1real);
        self.lemma_ln(f32_add(e, ONE_32), y, l);
        self.lemma_div(l, z, b, 1real);
        assert(z / 1real == z) by (nonlinear_arith);
    }

    /// L2 normalization: every element over the root of the stabilized sum of squares.
    pub(crate) proof fn lemma_l2(
        &self,
        s: Seq<u32>,
        f: spec_fn(int) -> real,
        eps: u64,
        e: real,
        r: Seq<u32>,
        c: int,
    )
        requires
            self.computes(),
            self.row_means(s, f),
            self.means(narrowed(eps), e),
            l2_gives(s, eps, r),
            0 <= c < s.len(),
        ensures
            self.means(r[c], f(c) / (self.rs.sqrt)(dot(s.len(), f, f) + e)),
    {
        let n = choose|n: u32|
            {
                &&& #[trigger] sum_gives(squares(s), n)
                &&& forall|c: int|
                    0 <= c < r.len() ==> #[trigger] r[c] == f32_div(
                        s[c],
                        f32_sqrt(f32_add(n, narrowed(eps))),
                    )
            };
        let sq = |i: int| f(i) * f(i);
        self.lemma_squares(s, f);
        self.lemma_sum(squares(s), sq, n);
        lemma_total_same(s.len(), sq, |i: int| f(i) * f(i));
        let m = dot(s.len(), f, f);
        self.lemma_add(n, m, narrowed(eps), e);
        self.lemma_sqrt(f32_add(n, narrowed(eps)), m + e);
        assert(self.means(s[c], f(c)));
        self.lemma_div(s[c], f(c), f32_sqrt(f32_add(n, narrowed(eps))), (self.rs.sqrt)(m + e));
    }

    pub(crate) proof fn lemma_squares(&self, s: Seq<u32>, f: spec_fn(int) -> real)
        requires
            self.computes(),
            self.row_means(s, f),
        ensures
            self.row_means(squares(s), |i: int| f(i) * f(i)),
    {
        let sq = |i: int| f(i) * f(i);
        assert forall|i: int| 0 <= i < squares(s).len() implies self.means(
            #[trigger] squares(s)[i],
            sq(i),
        ) by {
            assert(self.means(s[i], f(i)));
            self.lemma_mul(s[i], f(i), s[i], f(i));
        }
    }

    /// `x` stands for `a` wherever the leaves do and the operations are kept: `x` has been
    /// computed from leaves, and `a` is the exact value of that computation.
    pub open spec fn least(rs: Reals, leaf: spec_fn(u32, real) -> bool) -> Meaning {
        Meaning {
            stands: |x: u32, a: real|
                forall|m: Meaning| #[trigger] m.extends(rs, leaf) ==> m.means(x, a),
            rs,
        }
    }

    /// The operations are kept, and leaves stand for what they stand for.
    pub open spec fn extends(&self, rs: Reals, leaf: spec_fn(u32, real) -> bool) -> bool {
        &&& self.rs == rs
        &&& self.computes()
        &&& forall|x: u32, a: real| leaf(x, a) ==> #[trigger] self.means(x, a)
    }

    /// Whatever the leaves stand for, there is a least meaning that keeps the operations:
    /// the laws can be read as saying what a result was computed to be.
    pub proof fn law_least_meaning(rs: Reals, leaf: spec_fn(u32, real) -> bool)
        ensures
            Self::least(rs, leaf).extends(rs, leaf),
    {
        let n = Self::least(rs, leaf);
        assert forall|x: u32, a: real, m: Meaning|
            n.means(x, a) && #[trigger] m.extends(rs, leaf) implies #[trigger] m.means(x, a) by {}
        assert forall|s: Seq<u32>, f: spec_fn(int) -> real, m: Meaning|
            n.row_means(s, f) && #[trigger] m.extends(rs, leaf) implies #[trigger] m.row_means(
            s,
            f,
        ) by {
            assert forall|i: int| 0 <= i < s.len() implies m.means(#[trigger] s[i], f(i)) by {
                assert(n.means(s[i], f(i)));
            }
        }
        reveal(Meaning::computes);
        assert(n.means(0, 0real) && n.means(ONE_32, 1real));
        assert(n.keeps_operations());
        assert forall|s: Seq<u32>, r: u32, f: spec_fn(int) -> real|
            #![trigger sum_gives(s, r), n.row_means(s, f)]
            sum_gives(s, r) && n.row_means(s, f) implies n.means(r, total(s.len(), f)) by {
            assert forall|m: Meaning| #[trigger] m.extends(rs, leaf) implies m.means(
                r,
                total(s.len(), f),
            ) by {
                assert(m.row_means(s, f));
            }
        }
        assert forall|s: Seq<u32>, r: u32, f: spec_fn(int) -> real|
            #![trigger mean_gives(s, r), n.row_means(s, f)]
            mean_gives(s, r) && n.row_means(s, f) implies n.means(
            r,
            total(s.len(), f) / (s.len() as real),
        ) by {
            assert forall|m: Meaning| #[trigger] m.extends(rs, leaf) implies m.means(
                r,
                total(s.len(), f) / (s.len() as real),
            ) by {
                assert(m.row_means(s, f));
            }
        }
        assert forall|
            s: Seq<u32>,
            w: Seq<u32>,
            r: u32,
            f: spec_fn(int) -> real,
            g: spec_fn(int) -> real,
        |
            #![trigger matmul_gives(s, w, r), n.row_means(s, f), n.row_means(w, g)]
            matmul_gives(s, w, r) && s.len() == w.len() && n.row_means(s, f) && n.row_means(
                w,
                g,
            ) implies n.means(r, dot(s.len(), f, g)) by {
            assert forall|m: Meaning| #[trigger] m.extends(rs, leaf) implies m.means(
                r,
                dot(s.len(), f, g),
            ) by {
                assert(m.row_means(s, f) && m.row_means(w, g));
            }
        }
    }
}

} // verus!
