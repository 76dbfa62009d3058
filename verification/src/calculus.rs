//! The formulas with exponentials, logarithms and roots, over any arithmetic, and what
//! they have in common with their counterparts over the reals.
use crate::backend::{
    exp_gives, f32_add, f32_div, f32_mul, f32_sqrt, ln_gives, sigmoid_gives, softplus_gives,
};
use crate::config::DecayFn;
use crate::decay::{log_decay, log_decay_gives, SOFTPLUS_BETA};
use crate::float::{narrowed, negated, ONE_32};
use crate::recurrence::{f32_arith, real_arith, Arith};
use vstd::prelude::*;

verus! {

/// The functions that a formula is evaluated with. Exponential and logarithm are
/// relations: a rounded one may have several values.
#[verifier::reject_recursive_types(T)]
pub struct Calculus<T> {
    pub ar: Arith<T>,
    pub one: T,
    pub div: spec_fn(T, T) -> T,
    pub sqrt: spec_fn(T) -> T,
    pub exp: spec_fn(T, T) -> bool,
    pub ln: spec_fn(T, T) -> bool,
}

/// Binary32 arithmetic, as the layer runs it.
pub open spec fn f32_calculus() -> Calculus<u32> {
    Calculus {
        ar: f32_arith(),
        one: ONE_32,
        div: |x: u32, y: u32| f32_div(x, y),
        sqrt: |x: u32| f32_sqrt(x),
        exp: |x: u32, r: u32| exp_gives(x, r),
        ln: |x: u32, r: u32| ln_gives(x, r),
    }
}

/// The functions of exact arithmetic.
pub struct Reals {
    pub exp: spec_fn(real) -> real,
    pub ln: spec_fn(real) -> real,
    pub sqrt: spec_fn(real) -> real,
}

impl Reals {
    /// The exponential is positive, grows and is one at zero.
    pub open spec fn exp_grows(&self) -> bool {
        &&& (self.exp)(0real) == 1real
        &&& forall|x: real| #[trigger] (self.exp)(x) > 0real
        &&& forall|x: real, y: real| x < y ==> #[trigger] (self.exp)(x) < #[trigger] (self.exp)(y)
    }

    /// The logarithm grows and is zero at one.
    pub open spec fn ln_grows(&self) -> bool {
        &&& (self.ln)(1real) == 0real
        &&& forall|x: real, y: real|
            0real < x < y ==> #[trigger] (self.ln)(x) < #[trigger] (self.ln)(y)
    }

    /// The facts about exponential and logarithm that the laws rest on.
    pub open spec fn grows(&self) -> bool {
        self.exp_grows() && self.ln_grows()
    }

    /// The root of a positive number is positive.
    pub open spec fn sqrt_positive(&self) -> bool {
        forall|x: real| x > 0real ==> #[trigger] (self.sqrt)(x) > 0real
    }

    /// Exact arithmetic with these functions.
    pub open spec fn calculus(&self) -> Calculus<real> {
        Calculus {
            ar: real_arith(),
            one: 1real,
            div: |x: real, y: real| x / y,
            sqrt: |x: real| (self.sqrt)(x),
            exp: |x: real, r: real| r == (self.exp)(x),
            ln: |x: real, r: real| r == (self.ln)(x),
        }
    }

    /// The logistic function.
    pub open spec fn logistic(&self, x: real) -> real {
        (self.exp)(-(self.ln)((self.exp)(-x) + 1real))
    }

    /// Softplus with a sharpness of one.
    pub open spec fn softplus(&self, x: real) -> real {
        (self.ln)((self.exp)(x) + 1real)
    }
}

/// `r` is a value of the logistic function, `exp(-log(1 + exp(-x)))`.
pub open spec fn logistic_gives<T>(c: Calculus<T>, x: T, r: T) -> bool {
    exists|e: T, l: T|
        {
            &&& #[trigger] (c.exp)((c.ar.neg)(x), e)
            &&& #[trigger] (c.ln)((c.ar.add)(e, c.one), l)
            &&& (c.exp)((c.ar.neg)(l), r)
        }
}

/// `r` is a value of softplus with the sharpness `b`, `log(1 + exp(b * x)) / b`.
pub open spec fn ramp_gives<T>(c: Calculus<T>, x: T, b: T, r: T) -> bool {
    exists|e: T, l: T|
        {
            &&& #[trigger] (c.exp)((c.ar.mul)(x, b), e)
            &&& #[trigger] (c.ln)((c.ar.add)(e, c.one), l)
            &&& r == (c.div)(l, b)
        }
}

/// `act` is a value of the activation of a decay logit `z` in a head with this scale.
pub open spec fn activation_gives<T>(
    c: Calculus<T>,
    decay_fn: DecayFn,
    z: T,
    scale: T,
    sharpness: T,
    act: T,
) -> bool {
    match decay_fn {
        DecayFn::Softplus => ramp_gives(c, z, sharpness, act),
        DecayFn::Sigmoid => logistic_gives(c, (c.ar.mul)(z, scale), act),
    }
}

/// `alpha` is a value of the decay of a logit `z` in a head with this scale.
pub open spec fn decay_gives<T>(
    c: Calculus<T>,
    decay_fn: DecayFn,
    z: T,
    scale: T,
    sharpness: T,
    g_min: T,
    alpha: T,
) -> bool {
    exists|act: T| #[trigger]
        activation_gives(c, decay_fn, z, scale, sharpness, act) && (c.exp)(
            log_decay(c.ar, decay_fn, scale, act, g_min),
            alpha,
        )
}

/// The write strengths and gates of the layer are values of the logistic function in
/// binary32 arithmetic.
pub proof fn law_sigmoid_is_logistic(x: u32, r: u32)
    ensures
        sigmoid_gives(x, r) == logistic_gives(f32_calculus(), x, r),
{
    let c = f32_calculus();
    if sigmoid_gives(x, r) {
        let (e, l) = choose|e: u32, l: u32|
            {
                &&& #[trigger] exp_gives(negated(x), e)
                &&& #[trigger] ln_gives(f32_add(e, ONE_32), l)
                &&& exp_gives(negated(l), r)
            };
        assert((c.exp)((c.ar.neg)(x), e));
        assert((c.ln)((c.ar.add)(e, c.one), l));
    }
    if logistic_gives(c, x, r) {
        let (e, l) = choose|e: u32, l: u32|
            {
                &&& #[trigger] (c.exp)((c.ar.neg)(x), e)
                &&& #[trigger] (c.ln)((c.ar.add)(e, c.one), l)
                &&& (c.exp)((c.ar.neg)(l), r)
            };
        assert(exp_gives(negated(x), e));
        assert(ln_gives(f32_add(e, ONE_32), l));
    }
}

/// The softplus of the layer is the formula in binary32 arithmetic.
pub proof fn law_softplus_is_ramp(x: u32, beta: u64, r: u32)
    ensures
        softplus_gives(x, beta, r) == ramp_gives(f32_calculus(), x, narrowed(beta), r),
{
    let c = f32_calculus();
    let b = narrowed(beta);
    if softplus_gives(x, beta, r) {
        let (e, l) = choose|e: u32, l: u32|
            {
                &&& #[trigger] exp_gives(f32_mul(x, b), e)
                &&& #[trigger] ln_gives(f32_add(e, ONE_32), l)
                &&& r == f32_div(l, b)
            };
        assert((c.exp)((c.ar.mul)(x, b), e));
        assert((c.ln)((c.ar.add)(e, c.one), l));
    }
    if ramp_gives(c, x, b, r) {
        let (e, l) = choose|e: u32, l: u32|
            {
                &&& #[trigger] (c.exp)((c.ar.mul)(x, b), e)
                &&& #[trigger] (c.ln)((c.ar.add)(e, c.one), l)
                &&& r == (c.div)(l, b)
            };
        assert(exp_gives(f32_mul(x, b), e));
        assert(ln_gives(f32_add(e, ONE_32), l));
    }
}

/// The decays of the layer are values of the decay formula in binary32 arithmetic.
pub proof fn law_decay_is_formula(decay_fn: DecayFn, z: u32, scale: u32, g_min: u32, alpha: u32)
    ensures
        (exists|g: u32| #[trigger]
            log_decay_gives(decay_fn, z, scale, g_min, g) && exp_gives(g, alpha)) == decay_gives(
            f32_calculus(),
            decay_fn,
            z,
            scale,
            narrowed(SOFTPLUS_BETA),
            g_min,
            alpha,
        ),
{
    let c = f32_calculus();
    let b = narrowed(SOFTPLUS_BETA);
    assert forall|act: u32|
        crate::decay::activates(decay_fn, z, scale, act) == #[trigger] activation_gives(
            c,
            decay_fn,
            z,
            scale,
            b,
            act,
        ) by {
        law_sigmoid_is_logistic(f32_mul(z, scale), act);
        law_softplus_is_ramp(z, SOFTPLUS_BETA, act);
    }
    if exists|g: u32| #[trigger]
        log_decay_gives(decay_fn, z, scale, g_min, g) && exp_gives(g, alpha) {
        let g = choose|g: u32| #[trigger]
            log_decay_gives(decay_fn, z, scale, g_min, g) && exp_gives(g, alpha);
        let act = choose|act: u32| #[trigger]
            crate::decay::activates(decay_fn, z, scale, act) && g == log_decay(
                f32_arith(),
                decay_fn,
                scale,
                act,
                g_min,
            );
        assert(activation_gives(c, decay_fn, z, scale, b, act));
    }
    if decay_gives(c, decay_fn, z, scale, b, g_min, alpha) {
        let act = choose|act: u32| #[trigger]
            activation_gives(c, decay_fn, z, scale, b, act) && (c.exp)(
                log_decay(c.ar, decay_fn, scale, act, g_min),
                alpha,
            );
        let g = log_decay(c.ar, decay_fn, scale, act, g_min);
        assert(crate::decay::activates(decay_fn, z, scale, act));
        assert(log_decay_gives(decay_fn, z, scale, g_min, g));
    }
}

impl Reals {
    /// Over the reals the logistic formula has one value.
    proof fn lemma_logistic(&self, x: real, r: real)
        requires
            logistic_gives(self.calculus(), x, r),
        ensures
            r == self.logistic(x),
    {
    }

    /// Over the reals the softplus formula with a sharpness of one has one value.
    proof fn lemma_softplus(&self, x: real, r: real)
        requires
            ramp_gives(self.calculus(), x, 1real, r),
        ensures
            r == self.softplus(x),
    {
        assert(x * 1real == x) by (nonlinear_arith);
        let l = self.softplus(x);
        assert(l / 1real == l) by (nonlinear_arith);
    }

    proof fn lemma_logistic_grows(&self, x: real, y: real)
        requires
            self.grows(),
        ensures
            0real < self.logistic(x) < 1real,
            x < y ==> self.logistic(x) < self.logistic(y),
    {
        let ex = (self.exp)(-x) + 1real;
        let ey = (self.exp)(-y) + 1real;
        assert((self.exp)(-x) > 0real && (self.exp)(-y) > 0real);
        assert((self.ln)(1real) < (self.ln)(ex));
        assert((self.exp)(-(self.ln)(ex)) < (self.exp)(0real));
        if x < y {
            assert((self.exp)(-y) < (self.exp)(-x));
            assert((self.ln)(ey) < (self.ln)(ex));
            assert((self.exp)(-(self.ln)(ex)) < (self.exp)(-(self.ln)(ey)));
        }
    }

    proof fn lemma_softplus_grows(&self, x: real, y: real)
        requires
            self.grows(),
        ensures
            0real < self.softplus(x),
            x < y ==> self.softplus(x) < self.softplus(y),
    {
        let ex = (self.exp)(x) + 1real;
        let ey = (self.exp)(y) + 1real;
        assert((self.exp)(x) > 0real && (self.exp)(y) > 0real);
        assert((self.ln)(1real) < (self.ln)(ex));
        if x < y {
            assert((self.exp)(x) < (self.exp)(y));
            assert((self.ln)(ex) < (self.ln)(ey));
        }
    }

    /// Over the reals the write strength lies between zero and one, and a larger logit
    /// gives a larger one: it depends on the input.
    pub proof fn law_strength_grows(&self, z1: real, z2: real, beta1: real, beta2: real)
        requires
            self.grows(),
            logistic_gives(self.calculus(), z1, beta1),
            logistic_gives(self.calculus(), z2, beta2),
        ensures
            0real < beta1 < 1real,
            z1 > z2 ==> beta1 > beta2,
    {
        self.lemma_logistic(z1, beta1);
        self.lemma_logistic(z2, beta2);
        self.lemma_logistic_grows(z1, z2);
        self.lemma_logistic_grows(z2, z1);
    }

    /// Over the reals, a larger logit decays more; the decay lies between zero and one,
    /// and under the bounded mapping above the exponential of the floor.
    pub proof fn law_larger_logit_forgets_more(
        &self,
        decay_fn: DecayFn,
        z1: real,
        z2: real,
        scale: real,
        g_min: real,
        alpha1: real,
        alpha2: real,
    )
        requires
            self.grows(),
            0real < scale,
            decay_fn == DecayFn::Sigmoid ==> g_min < 0real,
            decay_gives(self.calculus(), decay_fn, z1, scale, 1real, g_min, alpha1),
            decay_gives(self.calculus(), decay_fn, z2, scale, 1real, g_min, alpha2),
        ensures
            0real < alpha1 < 1real,
            decay_fn == DecayFn::Sigmoid ==> (self.exp)(g_min) < alpha1,
            z1 > z2 ==> alpha1 < alpha2,
    {
        let c = self.calculus();
        let act1 = choose|act: real| #[trigger]
            activation_gives(c, decay_fn, z1, scale, 1real, act) && (c.exp)(
                log_decay(c.ar, decay_fn, scale, act, g_min),
                alpha1,
            );
        let act2 = choose|act: real| #[trigger]
            activation_gives(c, decay_fn, z2, scale, 1real, act) && (c.exp)(
                log_decay(c.ar, decay_fn, scale, act, g_min),
                alpha2,
            );
        let g1 = log_decay(c.ar, decay_fn, scale, act1, g_min);
        let g2 = log_decay(c.ar, decay_fn, scale, act2, g_min);
        match decay_fn {
            DecayFn::Softplus => {
                self.lemma_softplus(z1, act1);
                self.lemma_softplus(z2, act2);
                self.lemma_softplus_grows(z1, z2);
                self.lemma_softplus_grows(z2, z1);
            },
            DecayFn::Sigmoid => {
                self.lemma_logistic(z1 * scale, act1);
                self.lemma_logistic(z2 * scale, act2);
                self.lemma_logistic_grows(z1 * scale, z2 * scale);
                self.lemma_logistic_grows(z2 * scale, z1 * scale);
                if z1 > z2 {
                    assert(z1 * scale > z2 * scale) by (nonlinear_arith)
                        requires
                            z1 > z2,
                            0real < scale,
                    ;
                }
            },
        }
        law_log_decay_falls(decay_fn, scale, act1, act2, g_min);
        assert((self.exp)(g1) < (self.exp)(0real));
        if decay_fn == DecayFn::Sigmoid {
            assert(g_min < act1 * g_min) by (nonlinear_arith)
                requires
                    act1 < 1real,
                    g_min < 0real,
            ;
            assert((self.exp)(g_min) < (self.exp)(g1));
        }
        if z1 > z2 {
            assert((self.exp)(g1) < (self.exp)(g2));
        }
    }
}

/// Over the reals the log-decay is negative, and a larger activation gives a smaller one.
pub proof fn law_log_decay_falls(
    decay_fn: DecayFn,
    scale: real,
    act1: real,
    act2: real,
    g_min: real,
)
    requires
        0real < scale,
        0real < act1,
        decay_fn == DecayFn::Sigmoid ==> g_min < 0real,
    ensures
        log_decay(real_arith(), decay_fn, scale, act1, g_min) < 0real,
        act1 > act2 ==> log_decay(real_arith(), decay_fn, scale, act1, g_min) < log_decay(
            real_arith(),
            decay_fn,
            scale,
            act2,
            g_min,
        ),
{
    match decay_fn {
        DecayFn::Softplus => {
            assert(0real < scale * act1) by (nonlinear_arith)
                requires
                    0real < scale,
                    0real < act1,
            ;
            if act1 > act2 {
                assert(scale * act1 > scale * act2) by (nonlinear_arith)
                    requires
                        0real < scale,
                        act1 > act2,
                ;
            }
        },
        DecayFn::Sigmoid => {
            assert(act1 * g_min < 0real) by (nonlinear_arith)
                requires
                    g_min < 0real,
                    0real < act1,
            ;
            if act1 > act2 {
                assert(act1 * g_min < act2 * g_min) by (nonlinear_arith)
                    requires
                        g_min < 0real,
                        act1 > act2,
                ;
            }
        },
    }
}

} // verus!
