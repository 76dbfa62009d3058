//! What one step of the recurrence stands for.
use crate::algebra::{
    law_delta_rule, lemma_comm, lemma_total_same, lemma_total_zero, matrix_step, recalled, total,
    unit,
};
use crate::backend::{f32_mul, f32_sub, matmul_gives};
use crate::float::{narrowed, F64};
use crate::meaning::Meaning;
use crate::recurrence::{corrected, f32_arith};
use crate::step::{column_steps, decayed_column, steps};
use crate::tensor::Tensor;
use vstd::prelude::*;

verus! {

impl Meaning {
    /// One step is `S' = (I - beta k k^T) Diag(alpha) S + beta k v^T` and `o = S'^T q`: the
    /// next state and the output stand for these, for every state, decay, key, value, query
    /// and write strength.
    pub proof fn law_step(
        &self,
        state: Tensor<4>,
        decay: Tensor<2>,
        q: Tensor<3>,
        k: Tensor<3>,
        v: Tensor<3>,
        beta: F64,
        next: Tensor<4>,
        out: Tensor<3>,
        b: int,
        h: int,
        j: int,
        s_r: spec_fn(int) -> real,
        alpha_r: spec_fn(int) -> real,
        q_r: spec_fn(int) -> real,
        k_r: spec_fn(int) -> real,
        v_r: real,
        beta_r: real,
    )
        requires
            self.computes(),
            steps(state, decay, q, k, v, beta, next, out),
            k.dims@[2] == state.dims@[2],
            q.dims@[2] == state.dims@[2],
            out.has(b, h, j),
            forall|i: int|
                0 <= i < state.dims@[2] ==> self.means(#[trigger] state.at(b, h, i, j), s_r(i)),
            forall|i: int|
                0 <= i < state.dims@[2] ==> self.means(#[trigger] decay.at(h, i), alpha_r(i)),
            forall|i: int|
                0 <= i < state.dims@[2] ==> self.means(#[trigger] q.at(b, h, i), q_r(i)),
            forall|i: int|
                0 <= i < state.dims@[2] ==> self.means(#[trigger] k.at(b, h, i), k_r(i)),
            self.means(v.at(b, h, j), v_r),
            self.means(narrowed(beta.bits), beta_r),
        ensures
            next.wf() && next.dims@ == state.dims@,
            out.wf() && out.dims@ == v.dims@,
            forall|i: int|
                0 <= i < state.dims@[2] ==> self.means(
                    #[trigger] next.at(b, h, i, j),
                    matrix_step(state.dims@[2] as nat, s_r, alpha_r, k_r, v_r, beta_r, i),
                ),
            self.means(
                out.at(b, h, j),
                total(
                    state.dims@[2] as nat,
                    |i: int|
                        q_r(i) * matrix_step(
                            state.dims@[2] as nat,
                            s_r,
                            alpha_r,
                            k_r,
                            v_r,
                            beta_r,
                            i,
                        ),
                ),
            ),
    {
        let dk = state.dims@[2] as nat;
        let bits = narrowed(beta.bits);
        assert(column_steps(state, decay, q, k, v, bits, next, out, b, h, j));
        let column = decayed_column(state, decay, b, h, j);
        let r = choose|r: u32|
            {
                &&& #[trigger] matmul_gives(column, k.row(b, h), r)
                &&& forall|i: int|
                    0 <= i < state.dims@[2] ==> #[trigger] next.at(b, h, i, j) == corrected(
                        f32_arith(),
                        column[i],
                        k.at(b, h, i),
                        v.at(b, h, j),
                        bits,
                        r,
                    )
            };
        let c_r = |i: int| alpha_r(i) * s_r(i);
        assert forall|i: int| 0 <= i < column.len() implies self.means(
            #[trigger] column[i],
            c_r(i),
        ) by {
            assert(column[i] == f32_mul(state.at(b, h, i, j), decay.at(h, i)));
            self.lemma_mul(state.at(b, h, i, j), s_r(i), decay.at(h, i), alpha_r(i));
            lemma_comm(s_r(i), alpha_r(i));
        }
        assert(self.row_means(k.row(b, h), k_r));
        self.lemma_matmul(column, c_r, k.row(b, h), k_r, r);
        let rec = recalled(dk, s_r, alpha_r, k_r);
        lemma_total_same(
            dk,
            |i: int| c_r(i) * k_r(i),
            |m: int| (alpha_r(m) * s_r(m)) * k_r(m),
        );
        assert(self.means(r, rec));
        let n_r = |i: int| matrix_step(dk, s_r, alpha_r, k_r, v_r, beta_r, i);
        assert forall|i: int| 0 <= i < dk implies self.means(
            #[trigger] next.at(b, h, i, j),
            n_r(i),
        ) by {
            let ki = k.at(b, h, i);
            let vj = v.at(b, h, j);
            self.lemma_sub(vj, v_r, r, rec);
            self.lemma_mul(f32_sub(vj, r), v_r - rec, bits, beta_r);
            let d = f32_mul(f32_sub(vj, r), bits);
            self.lemma_mul(ki, k_r(i), d, (v_r - rec) * beta_r);
            assert(self.means(column[i], c_r(i)));
            self.lemma_add(column[i], c_r(i), f32_mul(ki, d), k_r(i) * ((v_r - rec) * beta_r));
            law_delta_rule(dk, s_r, alpha_r, k_r, v_r, beta_r, i);
        }
        let col = next.col(b, h, j);
        assert(self.row_means(q.row(b, h), q_r));
        assert(self.row_means(col, n_r));
        self.lemma_matmul(q.row(b, h), q_r, col, n_r, out.at(b, h, j));
        lemma_total_same(
            dk,
            |i: int| q_r(i) * n_r(i),
            |i: int| q_r(i) * matrix_step(dk, s_r, alpha_r, k_r, v_r, beta_r, i),
        );
    }

    /// From a state of zeros a step writes `beta k v^T`, whatever the write strength, and
    /// the query reads back its product with the key, times the strength and the value.
    pub proof fn law_step_writes(
        &self,
        state: Tensor<4>,
        decay: Tensor<2>,
        q: Tensor<3>,
        k: Tensor<3>,
        v: Tensor<3>,
        beta: F64,
        next: Tensor<4>,
        out: Tensor<3>,
        b: int,
        h: int,
        j: int,
        alpha_r: spec_fn(int) -> real,
        q_r: spec_fn(int) -> real,
        k_r: spec_fn(int) -> real,
        v_r: real,
        beta_r: real,
    )
        requires
            self.computes(),
            steps(state, decay, q, k, v, beta, next, out),
            k.dims@[2] == state.dims@[2],
            q.dims@[2] == state.dims@[2],
            out.has(b, h, j),
            forall|i: int| 0 <= i < state.dims@[2] ==> #[trigger] state.at(b, h, i, j) == 0,
            forall|i: int|
                0 <= i < state.dims@[2] ==> self.means(#[trigger] decay.at(h, i), alpha_r(i)),
            forall|i: int|
                0 <= i < state.dims@[2] ==> self.means(#[trigger] q.at(b, h, i), q_r(i)),
            forall|i: int|
                0 <= i < state.dims@[2] ==> self.means(#[trigger] k.at(b, h, i), k_r(i)),
            self.means(v.at(b, h, j), v_r),
            self.means(narrowed(beta.bits), beta_r),
        ensures
            forall|i: int|
                0 <= i < state.dims@[2] ==> self.means(
                    #[trigger] next.at(b, h, i, j),
                    beta_r * k_r(i) * v_r,
                ),
            self.means(
                out.at(b, h, j),
                total(state.dims@[2] as nat, |i: int| q_r(i) * (beta_r * k_r(i) * v_r)),
            ),
    {
        let dk = state.dims@[2] as nat;
        let zero = |i: int| 0real;
        self.lemma_constants();
        self.law_step(
            state,
            decay,
            q,
            k,
            v,
            beta,
            next,
            out,
            b,
            h,
            j,
            zero,
            alpha_r,
            q_r,
            k_r,
            v_r,
            beta_r,
        );
        assert forall|i: int| #[trigger] matrix_step(dk, zero, alpha_r, k_r, v_r, beta_r, i)
            == beta_r * k_r(i) * v_r by {
            let f = |m: int|
                (unit(i, m) - beta_r * k_r(i) * k_r(m)) * (alpha_r(m) * zero(m));
            assert forall|m: int| 0 <= m < dk implies #[trigger] f(m) == 0real by {
                let a = alpha_r(m);
                let u = unit(i, m) - beta_r * k_r(i) * k_r(m);
                assert(a * 0real == 0real) by (nonlinear_arith);
                assert(u * 0real == 0real) by (nonlinear_arith);
            }
            lemma_total_zero(dk, f);
        }
        lemma_total_same(
            dk,
            |i: int| q_r(i) * matrix_step(dk, zero, alpha_r, k_r, v_r, beta_r, i),
            |i: int| q_r(i) * (beta_r * k_r(i) * v_r),
        );
    }
}

} // verus!
