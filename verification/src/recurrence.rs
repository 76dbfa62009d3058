//! The delta rule, one entry of the state at a time, over any arithmetic.
use crate::backend::{f32_add, f32_mul, f32_sub};
use crate::float::negated;
use vstd::prelude::*;

verus! {

/// The operations that a formula is evaluated with.
#[verifier::reject_recursive_types(T)]
pub struct Arith<T> {
    pub add: spec_fn(T, T) -> T,
    pub sub: spec_fn(T, T) -> T,
    pub mul: spec_fn(T, T) -> T,
    pub neg: spec_fn(T) -> T,
}

/// Binary32 arithmetic, as the layer runs it.
pub open spec fn f32_arith() -> Arith<u32> {
    Arith {
        add: |x: u32, y: u32| f32_add(x, y),
        sub: |x: u32, y: u32| f32_sub(x, y),
        mul: |x: u32, y: u32| f32_mul(x, y),
        neg: |x: u32| negated(x),
    }
}

/// Exact arithmetic.
pub open spec fn real_arith() -> Arith<real> {
    Arith {
        add: |x: real, y: real| x + y,
        sub: |x: real, y: real| x - y,
        mul: |x: real, y: real| x * y,
        neg: |x: real| -x,
    }
}

/// The delta rule on a decayed entry `s`, written as one correction: what the state
/// recalls for the key, `r`, is moved towards `v` by the write strength.
pub open spec fn corrected<T>(ar: Arith<T>, s: T, k: T, v: T, beta: T, r: T) -> T {
    (ar.add)(s, (ar.mul)(k, (ar.mul)((ar.sub)(v, r), beta)))
}

/// The delta rule on a decayed entry `s`, written as an erasure of the recalled `r`
/// followed by a write of `v`.
pub open spec fn rewritten<T>(ar: Arith<T>, s: T, k: T, v: T, beta: T, r: T) -> T {
    (ar.add)(
        (ar.sub)(s, (ar.mul)(k, (ar.mul)(r, beta))),
        (ar.mul)(k, (ar.mul)(v, beta)),
    )
}

} // verus!
