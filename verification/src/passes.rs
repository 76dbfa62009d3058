//! The training pass and the decoding pass of the layer, read in exact arithmetic.
//!
//! A pass is read by giving every bit pattern the real number that it stands for. It is exact
//! where its numbers, so read, obey the form that it computes: the chunked form for training,
//! the recurrence for decoding. What rounding adds depends on the machine.
use crate::algebra::{lemma_total_same, total};
use crate::calculus::Reals;
use crate::chunkwise::Run;
use crate::exact::{layer_output, mean_square};
use crate::layer::KdaModule;
use crate::meaning::Meaning;
use crate::output::gated_norm;
use crate::projection::Projection;
use crate::tensor::Tensor;
use vstd::prelude::*;

verus! {

/// A state of zeros, in one value channel.
pub open spec fn zeros() -> spec_fn(int) -> real {
    |i: int| 0real
}

/// How numbers are read: the real that a bit pattern stands for, and the functions of exact
/// arithmetic.
pub struct Reading {
    pub val: spec_fn(u32) -> real,
    pub rs: Reals,
}

impl Reading {
    /// What batch `b` of a projection gives value channel `j` of head `h`.
    pub open spec fn run(&self, layer: KdaModule, p: Projection, b: int, h: int, j: int) -> Run {
        Run {
            dk: layer.head_dim as nat,
            alpha: |t: int, i: int| (self.rs.exp)((self.val)(p.g.at(b, h, t, i))),
            k: |t: int, i: int| (self.val)(p.k.at(b, h, t, i)),
            q: |t: int, i: int| (self.val)(p.q.at(b, h, t, i)),
            v: |t: int| (self.val)(p.v.at(b, h, t, j)),
            beta: |t: int| (self.val)(p.beta_v.at(b, h, t, j)),
        }
    }

    /// The outputs of value channel `j` of head `h`.
    pub open spec fn outs(&self, o: Tensor<4>, b: int, h: int, j: int) -> spec_fn(int) -> real {
        |t: int| (self.val)(o.at(b, h, t, j))
    }

    /// The states of value channel `j` of head `h` along a decoding pass: `trace` holds the
    /// states before, between and after the tokens.
    pub open spec fn path(
        &self,
        trace: Seq<Tensor<4>>,
        b: int,
        h: int,
        j: int,
    ) -> spec_fn(int, int) -> real {
        |t: int, i: int| (self.val)(trace[t + 1].at(b, h, i, j))
    }

    /// In value channel `j` of head `h`, the outputs `o` are those of the chunked form with
    /// chunks of `c` tokens, from a state of zeros.
    pub open spec fn trains_channel(
        &self,
        layer: KdaModule,
        p: Projection,
        c: int,
        o: Tensor<4>,
        b: int,
        h: int,
        j: int,
    ) -> bool {
        exists|bound: spec_fn(int, int) -> real| #[trigger]
            self.run(layer, p, b, h, j).chunked(
                c,
                p.v.dims@[2] as int,
                zeros(),
                bound,
                self.outs(o, b, h, j),
            )
    }

    /// The heads' outputs `o` of a training pass are exact: in every value channel they are
    /// those of the chunked form with the layer's chunk size.
    pub open spec fn trains_exactly(
        &self,
        layer: KdaModule,
        p: Projection,
        o: Tensor<4>,
        b: int,
    ) -> bool {
        forall|h: int, j: int|
            0 <= h < layer.n_v_heads && 0 <= j < layer.v_head_dim
                ==> #[trigger] self.trains_channel(
                layer,
                p,
                layer.chunk_size as int,
                o,
                b,
                h,
                j,
            )
    }

    /// In value channel `j` of head `h`, the states along `trace` follow the recurrence from
    /// zeros, and the outputs `o` are what the queries read.
    pub open spec fn decodes_channel(
        &self,
        layer: KdaModule,
        p: Projection,
        trace: Seq<Tensor<4>>,
        o: Tensor<4>,
        b: int,
        h: int,
        j: int,
    ) -> bool {
        let run = self.run(layer, p, b, h, j);
        let path = self.path(trace, b, h, j);
        let out = self.outs(o, b, h, j);
        &&& run.recurs(p.v.dims@[2] as int, path)
        &&& forall|i: int| 0 <= i < layer.head_dim ==> #[trigger] path(-1, i) == 0real
        &&& forall|t: int| 0 <= t < p.v.dims@[2] ==> #[trigger] out(t) == run.output(path, t)
    }

    /// The heads' outputs `o` of a decoding pass along `trace` are exact.
    pub open spec fn decodes_exactly(
        &self,
        layer: KdaModule,
        p: Projection,
        trace: Seq<Tensor<4>>,
        o: Tensor<4>,
        b: int,
    ) -> bool {
        forall|h: int, j: int|
            0 <= h < layer.n_v_heads && 0 <= j < layer.v_head_dim
                ==> #[trigger] self.decodes_channel(layer, p, trace, o, b, h, j)
    }

    /// Channel `d` of the layer's output at token `t` of batch `b`, for the heads' outputs
    /// `o`: the norm, the gates and the output map without rounding.
    pub open spec fn output(
        &self,
        layer: KdaModule,
        p: Projection,
        o: Tensor<4>,
        eps: real,
        b: int,
        t: int,
        d: int,
    ) -> real {
        layer_output(
            self.rs,
            layer.n_v_heads as nat,
            layer.v_head_dim as nat,
            |h: int, j: int| (self.val)(o.at(b, h, t, j)),
            |h: int, j: int| (self.val)(p.gate.at(b, h, t, j)),
            eps,
            |j: int| (self.val)(layer.o_norm_w.at(j)),
            |h: int, j: int| (self.val)(layer.o_proj.weight.at(h * layer.v_head_dim + j, d)),
        )
    }

    /// The same outputs of the heads give the same output of the layer.
    proof fn lemma_output(
        &self,
        layer: KdaModule,
        p: Projection,
        o1: Tensor<4>,
        o2: Tensor<4>,
        eps: real,
        b: int,
        t: int,
        d: int,
    )
        requires
            forall|h: int, j: int|
                0 <= h < layer.n_v_heads && 0 <= j < layer.v_head_dim ==> (self.val)(
                    #[trigger] o1.at(b, h, t, j),
                ) == (self.val)(o2.at(b, h, t, j)),
        ensures
            self.output(layer, p, o1, eps, b, t, d) == self.output(layer, p, o2, eps, b, t, d),
    {
        let c0 = self.rs.calculus();
        let vd = layer.v_head_dim as nat;
        let f1 = |h: int, j: int| (self.val)(o1.at(b, h, t, j));
        let f2 = |h: int, j: int| (self.val)(o2.at(b, h, t, j));
        let gate = |h: int, j: int| (self.val)(p.gate.at(b, h, t, j));
        let norm = |j: int| (self.val)(layer.o_norm_w.at(j));
        let w = |h: int, j: int|
            (self.val)(layer.o_proj.weight.at(h * layer.v_head_dim + j, d));
        let outer1 = |h: int|
            total_of_head(self.rs, vd, f1, gate, eps, norm, w, h);
        let outer2 = |h: int|
            total_of_head(self.rs, vd, f2, gate, eps, norm, w, h);
        assert forall|h: int| 0 <= h < layer.n_v_heads implies #[trigger] outer1(h) == outer2(h) by {
            let s1 = |c: int| f1(h, c) * f1(h, c);
            let s2 = |c: int| f2(h, c) * f2(h, c);
            assert forall|c: int| 0 <= c < vd implies #[trigger] f1(h, c) == f2(h, c) by {
                assert((self.val)(o1.at(b, h, t, c)) == (self.val)(o2.at(b, h, t, c)));
            }
            assert forall|c: int| 0 <= c < vd implies #[trigger] s1(c) == s2(c) by {
                assert(f1(h, c) == f2(h, c));
            }
            lemma_total_same(vd, s1, s2);
            let h1 = |c: int| f1(h, c);
            let h2 = |c: int| f2(h, c);
            lemma_total_same(vd, |c: int| h1(c) * h1(c), s1);
            lemma_total_same(vd, |c: int| h2(c) * h2(c), s2);
            assert(mean_square(vd, h1) == mean_square(vd, h2));
            let t1 = |c: int|
                gated_norm(
                    c0,
                    f1(h, c),
                    mean_square(vd, |d: int| f1(h, d)),
                    eps,
                    gate(h, c),
                    norm(c),
                ) * w(h, c);
            let t2 = |c: int|
                gated_norm(
                    c0,
                    f2(h, c),
                    mean_square(vd, |d: int| f2(h, d)),
                    eps,
                    gate(h, c),
                    norm(c),
                ) * w(h, c);
            assert forall|c: int| 0 <= c < vd implies #[trigger] t1(c) == t2(c) by {
                assert(f1(h, c) == f2(h, c));
            }
            lemma_total_same(vd, t1, t2);
        }
        lemma_total_same(layer.n_v_heads as nat, outer1, outer2);
        lemma_layer_by_head(self.rs, layer.n_v_heads as nat, vd, f1, gate, eps, norm, w);
        lemma_layer_by_head(self.rs, layer.n_v_heads as nat, vd, f2, gate, eps, norm, w);
    }

    /// An exact training channel gives the outputs of the recurrence.
    proof fn lemma_trained(
        &self,
        layer: KdaModule,
        p: Projection,
        c: int,
        o: Tensor<4>,
        b: int,
        h: int,
        j: int,
        t: int,
    )
        requires
            0 < c,
            self.trains_channel(layer, p, c, o, b, h, j),
            0 <= t < p.v.dims@[2],
        ensures
            (self.val)(o.at(b, h, t, j)) == self.run(layer, p, b, h, j).output(
                self.run(layer, p, b, h, j).path(zeros()),
                t,
            ),
    {
        let run = self.run(layer, p, b, h, j);
        let n = p.v.dims@[2] as int;
        let out = self.outs(o, b, h, j);
        let bound = choose|bound: spec_fn(int, int) -> real| #[trigger]
            run.chunked(c, n, zeros(), bound, out);
        run.law_chunk_size_does_not_matter(n, zeros(), c, bound, out, c, bound, out);
        assert(out(t) == run.output(run.path(zeros()), t));
    }

    /// Numbers stand for the reals that they are read as.
    pub open spec fn meaning(&self) -> Meaning {
        Meaning { stands: |x: u32, a: real| (self.val)(x) == a, rs: self.rs }
    }

    /// Where the chunked kernel computes the WY form of its operands, a training pass is
    /// exact: the outputs of a projection are those of the chunked form over its queries,
    /// keys, values, log-decays and strengths, whatever the extents.
    pub proof fn law_chunks_train_exactly(
        &self,
        layer: KdaModule,
        p: Projection,
        o: Tensor<4>,
        b: int,
    )
        requires
            self.meaning().keeps_chunks(),
            (self.val)(0) == 0real,
            layer.groups_values(),
            layer.chunk_size > 0,
            layer.projection_shaped(p, p.v.dims@[0] as int, p.v.dims@[2] as int),
            0 <= b < p.v.dims@[0],
            0 < p.v.dims@[2],
            forall|h: int, t: int, i: int, j: int|
                p.beta_k.has(b, h, t, i) && p.beta_v.has(b, h, t, j) ==> #[trigger] p.beta_k.at(
                    b,
                    h,
                    t,
                    i,
                ) == #[trigger] p.beta_v.at(b, h, t, j),
            layer.chunks(p, o),
        ensures
            self.trains_exactly(layer, p, o, b),
    {
        let m = self.meaning();
        let c = layer.chunk_size as int;
        let n = p.v.dims@[2] as int;
        assert forall|h: int, j: int|
            0 <= h < layer.n_v_heads && 0 <= j
                < layer.v_head_dim implies #[trigger] self.trains_channel(layer, p, c, o, b, h, j) by {
            let run = self.run(layer, p, b, h, j);
            let g = |t: int, i: int| (self.val)(p.g.at(b, h, t, i));
            assert forall|t: int, i: int| 0 <= t < n && 0 <= i < run.dk implies m.means(
                #[trigger] p.beta_k.at(b, h, t, i),
                (run.beta)(t),
            ) by {
                assert(p.beta_k.at(b, h, t, i) == p.beta_v.at(b, h, t, j));
            }
            assert(m.run_means(p, b, h, j, run, g));
            m.law_chunk_is_wy_form(layer, p, o, b, h, j, run, g);
            let (bound, outs) = choose|
                bound: spec_fn(int, int) -> real,
                outs: spec_fn(int) -> real,
            |
                {
                    &&& #[trigger] run.chunked(c, n, zeros(), bound, outs)
                    &&& forall|t: int|
                        0 <= t < n ==> m.means(#[trigger] o.at(b, h, t, j), outs(t))
                };
            let out = self.outs(o, b, h, j);
            assert forall|k: int| 0 <= k && k * c < n implies #[trigger] run.chunk_at(
                c,
                n,
                bound,
                out,
                k,
            ) by {
                assert(run.chunk_at(c, n, bound, outs, k));
                assert(0 <= k * c) by (nonlinear_arith)
                    requires
                        0 <= k,
                        0 < c,
                ;
                assert forall|t: int| k * c <= t < n implies #[trigger] out(t) == outs(t) by {
                    assert(m.means(o.at(b, h, t, j), outs(t)));
                }
            }
            assert(run.chunked(c, n, zeros(), bound, out));
        }
    }

    /// Training is decoding: over the same projection of a sequence, an exact training pass
    /// and an exact decoding pass from zeros have the same heads' outputs, those of the
    /// recurrence, and the same output of the layer at every token, whatever the chunk size.
    pub proof fn law_training_is_decoding(
        &self,
        layer: KdaModule,
        p: Projection,
        trained: Tensor<4>,
        trace: Seq<Tensor<4>>,
        decoded: Tensor<4>,
        eps: real,
        b: int,
        t: int,
        d: int,
    )
        requires
            layer.chunk_size > 0,
            0 <= t < p.v.dims@[2],
            self.trains_exactly(layer, p, trained, b),
            self.decodes_exactly(layer, p, trace, decoded, b),
        ensures
            forall|h: int, j: int|
                0 <= h < layer.n_v_heads && 0 <= j < layer.v_head_dim ==> (self.val)(
                    #[trigger] trained.at(b, h, t, j),
                ) == self.run(layer, p, b, h, j).output(
                    self.run(layer, p, b, h, j).path(zeros()),
                    t,
                ),
            forall|h: int, j: int|
                0 <= h < layer.n_v_heads && 0 <= j < layer.v_head_dim ==> (self.val)(
                    #[trigger] trained.at(b, h, t, j),
                ) == (self.val)(decoded.at(b, h, t, j)),
            self.output(layer, p, trained, eps, b, t, d) == self.output(
                layer,
                p,
                decoded,
                eps,
                b,
                t,
                d,
            ),
    {
        assert forall|h: int, j: int|
            0 <= h < layer.n_v_heads && 0 <= j < layer.v_head_dim implies (self.val)(
            #[trigger] trained.at(b, h, t, j),
        ) == self.run(layer, p, b, h, j).output(self.run(layer, p, b, h, j).path(zeros()), t) by {
            assert(self.trains_channel(layer, p, layer.chunk_size as int, trained, b, h, j));
            self.lemma_trained(layer, p, layer.chunk_size as int, trained, b, h, j, t);
        }
        assert forall|h: int, j: int|
            0 <= h < layer.n_v_heads && 0 <= j < layer.v_head_dim implies (self.val)(
            #[trigger] trained.at(b, h, t, j),
        ) == (self.val)(decoded.at(b, h, t, j)) by {
            assert(self.decodes_channel(layer, p, trace, decoded, b, h, j));
            let run = self.run(layer, p, b, h, j);
            let path = self.path(trace, b, h, j);
            let out = self.outs(decoded, b, h, j);
            run.law_recurrence_is_unique(p.v.dims@[2] as int, path, zeros());
            assert(out(t) == run.output(path, t));
        }
        self.lemma_output(layer, p, trained, decoded, eps, b, t, d);
    }

    /// The chunk size does not change what a training pass gives: exact passes of two layers
    /// that differ in it alone, over the same projection, have the same heads' outputs and
    /// the same output of the layer at every token.
    pub proof fn law_training_ignores_chunk_size(
        &self,
        layer: KdaModule,
        other: KdaModule,
        p: Projection,
        o1: Tensor<4>,
        o2: Tensor<4>,
        eps: real,
        b: int,
        t: int,
        d: int,
    )
        requires
            layer.chunk_size > 0,
            other.chunk_size > 0,
            other == (KdaModule { chunk_size: other.chunk_size, ..layer }),
            0 <= t < p.v.dims@[2],
            self.trains_exactly(layer, p, o1, b),
            self.trains_exactly(other, p, o2, b),
        ensures
            forall|h: int, j: int|
                0 <= h < layer.n_v_heads && 0 <= j < layer.v_head_dim ==> (self.val)(
                    #[trigger] o1.at(b, h, t, j),
                ) == (self.val)(o2.at(b, h, t, j)),
            self.output(layer, p, o1, eps, b, t, d) == self.output(other, p, o2, eps, b, t, d),
    {
        assert forall|h: int, j: int|
            0 <= h < layer.n_v_heads && 0 <= j < layer.v_head_dim implies (self.val)(
            #[trigger] o1.at(b, h, t, j),
        ) == (self.val)(o2.at(b, h, t, j)) by {
            assert(self.trains_channel(layer, p, layer.chunk_size as int, o1, b, h, j));
            assert(self.trains_channel(other, p, other.chunk_size as int, o2, b, h, j));
            self.lemma_trained(layer, p, layer.chunk_size as int, o1, b, h, j, t);
            self.lemma_trained(other, p, other.chunk_size as int, o2, b, h, j, t);
            assert(self.run(other, p, b, h, j) == self.run(layer, p, b, h, j));
        }
        self.lemma_output(layer, p, o1, o2, eps, b, t, d);
    }
}

/// What one head adds to a channel of the layer's output.
spec fn total_of_head(
    rs: Reals,
    vd: nat,
    o: spec_fn(int, int) -> real,
    gate: spec_fn(int, int) -> real,
    eps: real,
    norm: spec_fn(int) -> real,
    w: spec_fn(int, int) -> real,
    h: int,
) -> real {
    total(
        vd,
        |c: int|
            gated_norm(
                rs.calculus(),
                o(h, c),
                mean_square(vd, |d: int| o(h, d)),
                eps,
                gate(h, c),
                norm(c),
            ) * w(h, c),
    )
}

/// The layer's output as a sum over the heads.
proof fn lemma_layer_by_head(
    rs: Reals,
    heads: nat,
    vd: nat,
    o: spec_fn(int, int) -> real,
    gate: spec_fn(int, int) -> real,
    eps: real,
    norm: spec_fn(int) -> real,
    w: spec_fn(int, int) -> real,
)
    ensures
        layer_output(rs, heads, vd, o, gate, eps, norm, w) == total(
            heads,
            |h: int| total_of_head(rs, vd, o, gate, eps, norm, w, h),
        ),
{
    lemma_total_same(
        heads,
        |h: int|
            total(
                vd,
                |c: int|
                    gated_norm(
                        rs.calculus(),
                        o(h, c),
                        mean_square(vd, |d: int| o(h, d)),
                        eps,
                        gate(h, c),
                        norm(c),
                    ) * w(h, c),
            ),
        |h: int| total_of_head(rs, vd, o, gate, eps, norm, w, h),
    );
}

} // verus!
