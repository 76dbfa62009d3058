//! What a pass over the recurrence stands for.
use crate::algebra::{lemma_comm, lemma_total_same, recalled, total};
use crate::backend::{exp_gives, f32_mul, f32_sub, matmul_gives, sum_gives};
use crate::chunkwise::Run;
use crate::decode::{decayed, reads, token_column, token_decays, token_steps, traces, weighted};
use crate::meaning::{dot, Meaning};
use crate::projection::Projection;
use crate::recurrence::{f32_arith, rewritten};
use crate::tensor::Tensor;
use vstd::prelude::*;

verus! {

impl Meaning {
    /// Value channel `j` of head `h` in batch `b` of a projection stands for `run`, whose
    /// decays are the exponentials of the log-decays `g`.
    pub open spec fn run_means(
        &self,
        p: Projection,
        b: int,
        h: int,
        j: int,
        run: Run,
        g: spec_fn(int, int) -> real,
    ) -> bool {
        &&& run.dk == p.q.dims@[3]
        &&& forall|t: int, i: int|
            0 <= t < p.q.dims@[2] && 0 <= i < run.dk ==> self.means(
                #[trigger] p.q.at(b, h, t, i),
                (run.q)(t, i),
            )
        &&& forall|t: int, i: int|
            0 <= t < p.q.dims@[2] && 0 <= i < run.dk ==> self.means(
                #[trigger] p.k.at(b, h, t, i),
                (run.k)(t, i),
            )
        &&& forall|t: int, i: int|
            0 <= t < p.q.dims@[2] && 0 <= i < run.dk ==> self.means(
                #[trigger] p.g.at(b, h, t, i),
                g(t, i),
            )
        &&& forall|t: int, i: int|
            0 <= t < p.q.dims@[2] && 0 <= i < run.dk ==> #[trigger] (run.alpha)(t, i) == (
            self.rs.exp)(g(t, i))
        &&& forall|t: int|
            0 <= t < p.q.dims@[2] ==> self.means(#[trigger] p.v.at(b, h, t, j), (run.v)(t))
        &&& forall|t: int|
            0 <= t < p.q.dims@[2] ==> self.means(
                #[trigger] p.beta_v.at(b, h, t, j),
                (run.beta)(t),
            )
        &&& forall|t: int, i: int|
            0 <= t < p.q.dims@[2] && 0 <= i < run.dk ==> self.means(
                #[trigger] p.beta_k.at(b, h, t, i),
                (run.beta)(t),
            )
    }

    /// Column `j` of head `h` in batch `b` of a state stands for `f`.
    pub open spec fn column_means(
        &self,
        s: Tensor<4>,
        b: int,
        h: int,
        j: int,
        f: spec_fn(int) -> real,
    ) -> bool {
        forall|i: int|
            0 <= i < s.dims@[2] ==> self.means(#[trigger] s.at(b, h, i, j), f(i))
    }

    /// One decoded token.
    proof fn lemma_token(
        &self,
        p: Projection,
        t: int,
        s: Tensor<4>,
        next: Tensor<4>,
        o: Tensor<4>,
        b: int,
        h: int,
        j: int,
        run: Run,
        g: spec_fn(int, int) -> real,
        before: spec_fn(int) -> real,
    )
        requires
            self.computes(),
            self.run_means(p, b, h, j, run, g),
            token_steps(s, p, t, next, o),
            p.g.dims@ == p.q.dims@,
            0 <= t < p.q.dims@[2],
            0 <= b < s.dims@[0],
            0 <= h < s.dims@[1],
            0 <= j < s.dims@[3],
            s.dims@[0] == p.q.dims@[0],
            s.dims@[1] == p.q.dims@[1],
            s.dims@[2] == run.dk,
            self.column_means(s, b, h, j, before),
        ensures
            self.column_means(next, b, h, j, |i: int| run.step(before, t, i)),
            self.means(
                o.at(b, h, t, j),
                total(run.dk, |i: int| (run.q)(t, i) * run.step(before, t, i)),
            ),
    {
        let d = choose|d: Tensor<4>|
            {
                &&& #[trigger] token_decays(p, t, d)
                &&& forall|b: int, h: int, j: int|
                    0 <= b < s.dims@[0] && 0 <= h < s.dims@[1] && 0 <= j < s.dims@[3]
                        ==> #[trigger] token_column(s, p, t, d, next, o, b, h, j)
            };
        assert(token_column(s, p, t, d, next, o, b, h, j));
        let column = decayed(s, d, b, h, j);
        let r = choose|r: u32|
            {
                &&& #[trigger] sum_gives(weighted(column, p.k, b, h, t), r)
                &&& forall|i: int|
                    0 <= i < s.dims@[2] ==> #[trigger] next.at(b, h, i, j) == rewritten(
                        f32_arith(),
                        column[i],
                        p.k.at(b, h, t, i),
                        p.v.at(b, h, t, j),
                        p.beta_v.at(b, h, t, j),
                        r,
                    )
            };
        let al = |m: int| (run.alpha)(t, m);
        let ks = |m: int| (run.k)(t, m);
        let c_r = |i: int| al(i) * before(i);
        assert forall|i: int| 0 <= i < run.dk implies self.means(#[trigger] column[i], c_r(i)) by {
            assert(d.has(b, h, 0, i));
            assert(exp_gives(p.g.at(b, h, t, i), d.at(b, h, 0, i)));
            self.lemma_exp(p.g.at(b, h, t, i), g(t, i), d.at(b, h, 0, i));
            assert((run.alpha)(t, i) == (self.rs.exp)(g(t, i)));
            self.lemma_mul(s.at(b, h, i, j), before(i), d.at(b, h, 0, i), al(i));
            lemma_comm(before(i), al(i));
        }
        let products = weighted(column, p.k, b, h, t);
        let p_r = |i: int| (al(i) * before(i)) * ks(i);
        assert forall|i: int| 0 <= i < products.len() implies self.means(
            #[trigger] products[i],
            p_r(i),
        ) by {
            assert(self.means(column[i], c_r(i)));
            self.lemma_mul(column[i], c_r(i), p.k.at(b, h, t, i), ks(i));
        }
        self.lemma_sum(products, p_r, r);
        let rec = recalled(
            run.dk,
            before,
            |m: int| (run.alpha)(t, m),
            |m: int| (run.k)(t, m),
        );
        lemma_total_same(run.dk, p_r, |m: int| (al(m) * before(m)) * ks(m));
        assert(self.means(r, rec));
        let n_r = |i: int| run.step(before, t, i);
        let vj = p.v.at(b, h, t, j);
        let bj = p.beta_v.at(b, h, t, j);
        let v_r = (run.v)(t);
        let b_r = (run.beta)(t);
        assert forall|i: int| 0 <= i < next.dims@[2] implies self.means(
            #[trigger] next.at(b, h, i, j),
            n_r(i),
        ) by {
            let ki = p.k.at(b, h, t, i);
            let kr = (run.k)(t, i);
            assert(self.means(column[i], c_r(i)));
            self.lemma_mul(r, rec, bj, b_r);
            self.lemma_mul(ki, kr, f32_mul(r, bj), rec * b_r);
            let erased = f32_mul(ki, f32_mul(r, bj));
            self.lemma_sub(column[i], c_r(i), erased, kr * (rec * b_r));
            self.lemma_mul(vj, v_r, bj, b_r);
            self.lemma_mul(ki, kr, f32_mul(vj, bj), v_r * b_r);
            let written = f32_mul(ki, f32_mul(vj, bj));
            self.lemma_add(
                f32_sub(column[i], erased),
                c_r(i) - kr * (rec * b_r),
                written,
                kr * (v_r * b_r),
            );
        }
        let read = weighted(next.col(b, h, j), p.q, b, h, t);
        let q_r = |i: int| (run.q)(t, i) * run.step(before, t, i);
        assert forall|i: int| 0 <= i < read.len() implies self.means(
            #[trigger] read[i],
            q_r(i),
        ) by {
            assert(self.means(next.at(b, h, i, j), n_r(i)));
            assert(next.col(b, h, j)[i] == next.at(b, h, i, j));
            self.lemma_mul(next.at(b, h, i, j), n_r(i), p.q.at(b, h, t, i), (run.q)(t, i));
            lemma_comm(n_r(i), (run.q)(t, i));
        }
        self.lemma_sum(read, q_r, o.at(b, h, t, j));
    }

    /// Decoding is the recurrence `S_t = (I - beta k k^T) Diag(alpha) S + beta k v^T`,
    /// `o_t = S_t^T q_t`, token by token from the state given: the states along a pass and
    /// its outputs stand for those of the recurrence.
    pub proof fn law_decoding(
        &self,
        p: Projection,
        trace: Seq<Tensor<4>>,
        o: Tensor<4>,
        b: int,
        h: int,
        j: int,
        run: Run,
        g: spec_fn(int, int) -> real,
        first: spec_fn(int) -> real,
        t: int,
    )
        requires
            self.computes(),
            self.run_means(p, b, h, j, run, g),
            p.g.dims@ == p.q.dims@,
            trace.len() == p.q.dims@[2] + 1,
            traces(p, 0, trace, o),
            0 <= b < trace[0].dims@[0],
            0 <= h < trace[0].dims@[1],
            0 <= j < trace[0].dims@[3],
            trace[0].dims@[0] == p.q.dims@[0],
            trace[0].dims@[1] == p.q.dims@[1],
            trace[0].dims@[2] == run.dk,
            self.column_means(trace[0], b, h, j, first),
            -1 <= t < p.q.dims@[2],
        ensures
            trace[t + 1].dims@ == trace[0].dims@,
            self.column_means(trace[t + 1], b, h, j, |i: int| run.path(first)(t, i)),
            t >= 0 ==> self.means(o.at(b, h, t, j), run.output(run.path(first), t)),
        decreases t + 1,
    {
        let path = run.path(first);
        if t < 0 {
            let f = |i: int| run.path(first)(t, i);
            assert forall|i: int| 0 <= i < trace[0].dims@[2] implies self.means(
                #[trigger] trace[0].at(b, h, i, j),
                f(i),
            ) by {
                assert(path(-1, i) == first(i));
            }
        } else {
            self.law_decoding(p, trace, o, b, h, j, run, g, first, t - 1);
            assert(token_steps(trace[t], p, 0 + t, trace[t + 1], o));
            let before = |i: int| run.path(first)(t - 1, i);
            self.lemma_token(p, t, trace[t], trace[t + 1], o, b, h, j, run, g, before);
            run.law_recurs(p.q.dims@[2] as int, first);
            let f = |i: int| run.path(first)(t, i);
            assert forall|i: int| 0 <= i < run.dk implies #[trigger] path(t, i) == run.step(
                before,
                t,
                i,
            ) by {
                assert(run.steps_at(path, t, i));
                assert((|m: int| path(t - 1, m)) =~= before);
            }
            assert forall|i: int| 0 <= i < trace[t + 1].dims@[2] implies self.means(
                #[trigger] trace[t + 1].at(b, h, i, j),
                f(i),
            ) by {
                assert(path(t, i) == run.step(before, t, i));
            }
            lemma_total_same(
                run.dk,
                |i: int| (run.q)(t, i) * run.step(before, t, i),
                |i: int| (run.q)(t, i) * path(t, i),
            );
        }
    }

    /// A pass that only reads: every query reads the state as it is.
    pub proof fn law_reading(
        &self,
        p: Projection,
        s: Tensor<4>,
        o: Tensor<4>,
        b: int,
        h: int,
        t: int,
        j: int,
        q_r: spec_fn(int) -> real,
        s_r: spec_fn(int) -> real,
    )
        requires
            self.computes(),
            reads(p, s, o),
            o.has(b, h, t, j),
            p.q.dims@[3] == s.dims@[2],
            forall|i: int|
                0 <= i < s.dims@[2] ==> self.means(#[trigger] p.q.at(b, h, t, i), q_r(i)),
            self.column_means(s, b, h, j, s_r),
        ensures
            self.means(o.at(b, h, t, j), dot(s.dims@[2] as nat, q_r, s_r)),
    {
        let x = p.q.row(b, h, t);
        let y = s.col(b, h, j);
        assert(self.row_means(x, q_r));
        assert(self.row_means(y, s_r));
        assert(matmul_gives(x, y, o.at(b, h, t, j)));
        self.lemma_matmul(x, q_r, y, s_r, o.at(b, h, t, j));
    }
}

} // verus!
