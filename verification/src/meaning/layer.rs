//! What the passes of the layer stand for.
use crate::calculus::Reals;
use crate::chunkwise::Run;
use crate::decode::traces;
use crate::fused::{BackendKind, FusedCall};
use crate::layer::KdaModule;
use crate::meaning::chunk::Operands;
use crate::meaning::formulas::{state_column, RealLayer};
use crate::meaning::Meaning;
use crate::passes::zeros;
use crate::projection::Projection;
use crate::tensor::Tensor;
use vstd::prelude::*;

verus! {

impl Reals {
    /// The logarithm undoes the exponential.
    pub open spec fn ln_undoes_exp(&self) -> bool {
        forall|a: real| (self.ln)(#[trigger] (self.exp)(a)) == a
    }
}

/// States of zeros.
pub open spec fn no_states() -> spec_fn(int, int, int) -> real {
    |h: int, i: int, j: int| 0real
}

impl Meaning {
    /// A projection stands for what the recurrence is given.
    proof fn lemma_run(
        &self,
        layer: KdaModule,
        l: RealLayer,
        x: Tensor<3>,
        p: Projection,
        b: int,
        h: int,
        j: int,
        xr: spec_fn(int, int) -> real,
    )
        requires
            self.computes(),
            self.rs.ln_undoes_exp(),
            layer.wf(),
            layer.groups_values(),
            self.layer_means(layer, l),
            x.dims@[2] == layer.d_model,
            0 <= b < x.dims@[0],
            self.means3(x, b, xr),
            layer.projects(x, p),
            0 <= h < layer.n_v_heads,
            0 <= j < layer.v_head_dim,
        ensures
            layer.projection_shaped(p, x.dims@[0] as int, x.dims@[1] as int),
            self.run_means(
                p,
                b,
                h,
                j,
                l.run(self.rs, xr, h, j),
                |t: int, i: int| l.forgotten(self.rs, xr, h, t, i),
            ),
    {
        layer.lemma_projection_shaped(x, p);
        let run = l.run(self.rs, xr, h, j);
        let n = p.q.dims@[2] as int;
        let g = |t: int, i: int| l.forgotten(self.rs, xr, h, t, i);
        assert forall|t: int, i: int| 0 <= t < n && 0 <= i < run.dk implies self.means(
            #[trigger] p.q.at(b, h, t, i),
            (run.q)(t, i),
        ) by {
            self.law_queries(layer, l, x, p, b, h, t, i, xr);
        }
        assert forall|t: int, i: int| 0 <= t < n && 0 <= i < run.dk implies self.means(
            #[trigger] p.k.at(b, h, t, i),
            (run.k)(t, i),
        ) by {
            self.law_keys(layer, l, x, p, b, h, t, i, xr);
        }
        assert forall|t: int, i: int| 0 <= t < n && 0 <= i < run.dk implies self.means(
            #[trigger] p.g.at(b, h, t, i),
            g(t, i),
        ) by {
            self.law_log_decays(layer, l, x, p, b, h, t, i, xr);
            let a = l.forgotten(self.rs, xr, h, t, i);
            assert((self.rs.ln)((self.rs.exp)(a)) == a);
        }
        assert forall|t: int| 0 <= t < n implies self.means(
            #[trigger] p.v.at(b, h, t, j),
            (run.v)(t),
        ) by {
            self.law_values(layer, l, x, p, b, h, t, j, xr);
        }
        assert forall|t: int| 0 <= t < n implies self.means(
            #[trigger] p.beta_v.at(b, h, t, j),
            (run.beta)(t),
        ) by {
            self.law_strengths(layer, l, x, p, b, h, t, 0, j, xr);
        }
        assert forall|t: int, i: int| 0 <= t < n && 0 <= i < run.dk implies self.means(
            #[trigger] p.beta_k.at(b, h, t, i),
            (run.beta)(t),
        ) by {
            self.law_strengths(layer, l, x, p, b, h, t, i, j, xr);
        }
    }

    /// The norm, the gates and the output map of a pass.
    proof fn lemma_finish(
        &self,
        layer: KdaModule,
        l: RealLayer,
        x: Tensor<3>,
        p: Projection,
        o: Tensor<4>,
        y: Tensor<3>,
        b: int,
        t: int,
        e: int,
        xr: spec_fn(int, int) -> real,
        o_r: spec_fn(int, int) -> real,
    )
        requires
            self.computes(),
            layer.wf(),
            self.layer_means(layer, l),
            x.dims@[2] == layer.d_model,
            0 <= b < x.dims@[0],
            0 <= t < x.dims@[1],
            self.means3(x, b, xr),
            layer.projects(x, p),
            o.dims@ == p.v.dims@,
            layer.outputs(o, p.gate, y),
            y.has(b, t, e),
            forall|h: int, j: int|
                0 <= h < layer.n_v_heads && 0 <= j < layer.v_head_dim ==> self.means(
                    #[trigger] o.at(b, h, t, j),
                    o_r(h, j),
                ),
        ensures
            self.means(y.at(b, t, e), l.merged(self.rs, o_r, l.gates(self.rs, xr, t), e)),
    {
        layer.lemma_projection_shaped(x, p);
        let g_r = l.gates(self.rs, xr, t);
        assert forall|h: int, j: int|
            0 <= h < layer.n_v_heads && 0 <= j < layer.v_head_dim implies self.means(
            #[trigger] p.gate.at(b, h, t, j),
            g_r(h, j),
        ) by {
            self.law_gates(layer, l, x, p, b, h, t, j, xr);
        }
        self.law_output(layer, l, o, p.gate, y, b, t, e, o_r, g_r);
    }

    /// A training pass stands for the layer on paper: its projections, the recurrence from
    /// zeros, the norm, the gates and the output map, for every layer, input, token and
    /// chunk size. The chunked kernel is taken to compute the WY form of its operands.
    pub proof fn law_forward_train(
        &self,
        layer: KdaModule,
        l: RealLayer,
        x: Tensor<3>,
        y: Tensor<3>,
        b: int,
        t: int,
        e: int,
        xr: spec_fn(int, int) -> real,
    )
        requires
            self.computes(),
            self.keeps_chunks(),
            self.rs.ln_undoes_exp(),
            layer.wf(),
            layer.groups_values(),
            layer.chunk_size > 0,
            self.layer_means(layer, l),
            x.dims@[2] == layer.d_model,
            0 <= b < x.dims@[0],
            0 <= t < x.dims@[1],
            self.means3(x, b, xr),
            layer.trains(x, y),
            y.has(b, t, e),
        ensures
            self.means(
                y.at(b, t, e),
                l.merged(
                    self.rs,
                    l.attended(self.rs, xr, no_states(), t),
                    l.gates(self.rs, xr, t),
                    e,
                ),
            ),
    {
        let (p, o) = choose|p: Projection, o: Tensor<4>|
            {
                &&& #[trigger] layer.projects(x, p)
                &&& #[trigger] layer.chunks(p, o)
                &&& layer.outputs(o, p.gate, y)
            };
        layer.lemma_projection_shaped(x, p);
        self.lemma_constants();
        let o_r = l.attended(self.rs, xr, no_states(), t);
        assert forall|h: int, j: int|
            0 <= h < layer.n_v_heads && 0 <= j < layer.v_head_dim implies self.means(
            #[trigger] o.at(b, h, t, j),
            o_r(h, j),
        ) by {
            let run = l.run(self.rs, xr, h, j);
            let g = |t: int, i: int| l.forgotten(self.rs, xr, h, t, i);
            self.lemma_run(layer, l, x, p, b, h, j, xr);
            self.law_training(layer, p, o, b, h, j, run, g, t);
            assert(state_column(no_states(), h, j) =~= zeros());
        }
        self.lemma_finish(layer, l, x, p, o, y, b, t, e, xr, o_r);
    }

    /// A decoding pass stands for the layer on paper: the recurrence from the state given,
    /// or from zeros without one; and the state that it leaves is that after its last token.
    pub proof fn law_forward(
        &self,
        layer: KdaModule,
        l: RealLayer,
        x: Tensor<3>,
        given: Option<Tensor<4>>,
        y: Tensor<3>,
        after: Option<Tensor<4>>,
        b: int,
        t: int,
        e: int,
        xr: spec_fn(int, int) -> real,
        first: spec_fn(int, int, int) -> real,
    )
        requires
            self.computes(),
            self.rs.ln_undoes_exp(),
            layer.wf(),
            layer.groups_values(),
            self.layer_means(layer, l),
            x.dims@[2] == layer.d_model,
            0 <= b < x.dims@[0],
            0 <= t < x.dims@[1],
            self.means3(x, b, xr),
            given matches Some(s) ==> layer.state_shaped(s, x.dims@[0] as int) && self.means4(
                s,
                b,
                first,
            ),
            given is None ==> first == no_states(),
            layer.answers(x, given, true, y, after),
            y.has(b, t, e),
        ensures
            self.means(
                y.at(b, t, e),
                l.merged(
                    self.rs,
                    l.attended(self.rs, xr, first, t),
                    l.gates(self.rs, xr, t),
                    e,
                ),
            ),
            self.means4(
                after.unwrap(),
                b,
                |h: int, i: int, j: int|
                    l.run(self.rs, xr, h, j).path(state_column(first, h, j))(x.dims@[1] - 1, i),
            ),
    {
        let last = after.unwrap();
        let s = choose|s: Tensor<4>| #[trigger]
            layer.starts(given, x.dims@[0] as int, s) && layer.forwards(x, s, true, y, last);
        let (p, o) = choose|p: Projection, o: Tensor<4>|
            {
                &&& #[trigger] layer.projects(x, p)
                &&& #[trigger] layer.attends(p, s, true, o, last)
                &&& layer.outputs(o, p.gate, y)
            };
        layer.lemma_projection_shaped(x, p);
        self.lemma_constants();
        assert(layer.state_shaped(s, x.dims@[0] as int) && self.means4(s, b, first));
        let n = x.dims@[1] as int;
        let trace = choose|trace: Seq<Tensor<4>>|
            {
                &&& trace.len() == n - 0 + 1
                &&& trace[0] == s
                &&& trace[n - 0] == last
                &&& #[trigger] traces(p, 0, trace, o)
            };
        assert(p.g.dims@ =~= p.q.dims@);
        let o_r = l.attended(self.rs, xr, first, t);
        assert forall|h: int, j: int|
            0 <= h < layer.n_v_heads && 0 <= j < layer.v_head_dim implies self.means(
            #[trigger] o.at(b, h, t, j),
            o_r(h, j),
        ) by {
            self.lemma_channel(layer, l, x, p, trace, o, b, h, j, xr, first, t);
        }
        self.lemma_finish(layer, l, x, p, o, y, b, t, e, xr, o_r);
        let f = |h: int, i: int, j: int|
            l.run(self.rs, xr, h, j).path(state_column(first, h, j))(x.dims@[1] - 1, i);
        layer.lemma_trace_shaped(p, trace, o, x.dims@[0] as int, n);
        assert forall|h: int, i: int, j: int|
            0 <= h < last.dims@[1] && 0 <= i < last.dims@[2] && 0 <= j
                < last.dims@[3] implies self.means(#[trigger] last.at(b, h, i, j), f(h, i, j)) by {
            self.lemma_channel(layer, l, x, p, trace, o, b, h, j, xr, first, n - 1);
        }
    }

    /// One value channel of a decoding pass.
    proof fn lemma_channel(
        &self,
        layer: KdaModule,
        l: RealLayer,
        x: Tensor<3>,
        p: Projection,
        trace: Seq<Tensor<4>>,
        o: Tensor<4>,
        b: int,
        h: int,
        j: int,
        xr: spec_fn(int, int) -> real,
        first: spec_fn(int, int, int) -> real,
        t: int,
    )
        requires
            self.computes(),
            self.rs.ln_undoes_exp(),
            layer.wf(),
            layer.groups_values(),
            self.layer_means(layer, l),
            x.dims@[2] == layer.d_model,
            0 <= b < x.dims@[0],
            self.means3(x, b, xr),
            layer.projects(x, p),
            trace.len() == x.dims@[1] + 1,
            traces(p, 0, trace, o),
            layer.state_shaped(trace[0], x.dims@[0] as int),
            self.means4(trace[0], b, first),
            0 <= h < layer.n_v_heads,
            0 <= j < layer.v_head_dim,
            0 <= t < x.dims@[1],
        ensures
            self.column_means(
                trace[t + 1],
                b,
                h,
                j,
                |i: int| l.run(self.rs, xr, h, j).path(state_column(first, h, j))(t, i),
            ),
            self.means(o.at(b, h, t, j), l.attended(self.rs, xr, first, t)(h, j)),
    {
        let run = l.run(self.rs, xr, h, j);
        let g = |t: int, i: int| l.forgotten(self.rs, xr, h, t, i);
        let f = state_column(first, h, j);
        self.lemma_run(layer, l, x, p, b, h, j, xr);
        assert(p.g.dims@ =~= p.q.dims@);
        assert(self.column_means(trace[0], b, h, j, f));
        self.law_decoding(p, trace, o, b, h, j, run, g, f, t);
        let path = |i: int| run.path(f)(t, i);
        let goal = |i: int| l.run(self.rs, xr, h, j).path(state_column(first, h, j))(t, i);
        assert(path =~= goal);
    }

    /// A pass that only reads stands for the queries read against the state given, or
    /// against zeros, followed by the norm, the gates and the output map; the state stays.
    pub proof fn law_forward_reads(
        &self,
        layer: KdaModule,
        l: RealLayer,
        x: Tensor<3>,
        given: Option<Tensor<4>>,
        y: Tensor<3>,
        after: Option<Tensor<4>>,
        b: int,
        t: int,
        e: int,
        xr: spec_fn(int, int) -> real,
        first: spec_fn(int, int, int) -> real,
    )
        requires
            self.computes(),
            self.rs.ln_undoes_exp(),
            layer.wf(),
            layer.groups_values(),
            self.layer_means(layer, l),
            x.dims@[2] == layer.d_model,
            0 <= b < x.dims@[0],
            0 <= t < x.dims@[1],
            self.means3(x, b, xr),
            given matches Some(s) ==> layer.state_shaped(s, x.dims@[0] as int) && self.means4(
                s,
                b,
                first,
            ),
            given is None ==> first == no_states(),
            layer.answers(x, given, false, y, after),
            y.has(b, t, e),
        ensures
            self.means(
                y.at(b, t, e),
                l.merged(
                    self.rs,
                    l.looked_up(self.rs, xr, first, t),
                    l.gates(self.rs, xr, t),
                    e,
                ),
            ),
            given is Some ==> after == given,
            self.means4(after.unwrap(), b, first),
    {
        let last = after.unwrap();
        let s = choose|s: Tensor<4>| #[trigger]
            layer.starts(given, x.dims@[0] as int, s) && layer.forwards(x, s, false, y, last);
        let (p, o) = choose|p: Projection, o: Tensor<4>|
            {
                &&& #[trigger] layer.projects(x, p)
                &&& #[trigger] layer.attends(p, s, false, o, last)
                &&& layer.outputs(o, p.gate, y)
            };
        layer.lemma_projection_shaped(x, p);
        self.lemma_constants();
        assert(layer.state_shaped(s, x.dims@[0] as int) && self.means4(s, b, first));
        let o_r = l.looked_up(self.rs, xr, first, t);
        assert forall|h: int, j: int|
            0 <= h < layer.n_v_heads && 0 <= j < layer.v_head_dim implies self.means(
            #[trigger] o.at(b, h, t, j),
            o_r(h, j),
        ) by {
            let q_r = |i: int| l.query(self.rs, xr, h, t, i);
            assert forall|i: int| 0 <= i < s.dims@[2] implies self.means(
                #[trigger] p.q.at(b, h, t, i),
                q_r(i),
            ) by {
                self.law_queries(layer, l, x, p, b, h, t, i, xr);
            }
            let f = state_column(first, h, j);
            assert(self.column_means(s, b, h, j, f));
            self.law_reading(p, s, o, b, h, t, j, q_r, f);
        }
        self.lemma_finish(layer, l, x, p, o, y, b, t, e, xr, o_r);
    }

    /// Training and decoding from zeros stand for the same: the two outputs of a layer for
    /// an input are computations of one and the same real, whatever the chunk size.
    pub proof fn law_trained_is_decoded(
        &self,
        layer: KdaModule,
        l: RealLayer,
        x: Tensor<3>,
        trained: Tensor<3>,
        decoded: Tensor<3>,
        after: Option<Tensor<4>>,
        b: int,
        t: int,
        e: int,
        xr: spec_fn(int, int) -> real,
    )
        requires
            self.computes(),
            self.keeps_chunks(),
            self.rs.ln_undoes_exp(),
            layer.wf(),
            layer.groups_values(),
            layer.chunk_size > 0,
            self.layer_means(layer, l),
            x.dims@[2] == layer.d_model,
            0 <= b < x.dims@[0],
            0 <= t < x.dims@[1],
            self.means3(x, b, xr),
            layer.trains(x, trained),
            layer.answers(x, None, true, decoded, after),
            trained.has(b, t, e),
            decoded.has(b, t, e),
        ensures
            exists|a: real|
                self.means(trained.at(b, t, e), a) && #[trigger] self.means(
                    decoded.at(b, t, e),
                    a,
                ) && a == l.merged(
                    self.rs,
                    l.attended(self.rs, xr, no_states(), t),
                    l.gates(self.rs, xr, t),
                    e,
                ),
    {
        self.law_forward_train(layer, l, x, trained, b, t, e, xr);
        self.law_forward(layer, l, x, None, decoded, after, b, t, e, xr, no_states());
    }

    /// The rest of a training pass: outputs that the kernels gave are normed, gated and
    /// mapped; without any, those of the recurrence over the projection are.
    pub proof fn law_finish(
        &self,
        layer: KdaModule,
        l: RealLayer,
        p: Projection,
        fused: Option<(Tensor<4>, Tensor<4>)>,
        y: Tensor<3>,
        b: int,
        t: int,
        e: int,
        run: spec_fn(int, int) -> Run,
        g: spec_fn(int, int) -> spec_fn(int, int) -> real,
        o_r: spec_fn(int, int) -> real,
        g_r: spec_fn(int, int) -> real,
    )
        requires
            self.computes(),
            self.keeps_chunks(),
            layer.wf(),
            layer.groups_values(),
            layer.chunk_size > 0,
            self.layer_means(layer, l),
            layer.projection_shaped(p, p.v.dims@[0] as int, p.v.dims@[2] as int),
            0 <= b < p.v.dims@[0],
            0 <= t < p.v.dims@[2],
            layer.finishes(p, fused, y),
            y.has(b, t, e),
            forall|h: int, j: int|
                0 <= h < layer.n_v_heads && 0 <= j < layer.v_head_dim ==> self.means(
                    #[trigger] p.gate.at(b, h, t, j),
                    g_r(h, j),
                ),
            fused matches Some(f) ==> f.0.dims@ == p.v.dims@ && forall|h: int, j: int|
                0 <= h < layer.n_v_heads && 0 <= j < layer.v_head_dim ==> self.means(
                    #[trigger] f.0.at(b, h, t, j),
                    o_r(h, j),
                ),
            fused is None ==> forall|h: int, j: int|
                0 <= h < layer.n_v_heads && 0 <= j < layer.v_head_dim ==> {
                    &&& self.run_means(p, b, h, j, #[trigger] run(h, j), g(h, j))
                    &&& o_r(h, j) == run(h, j).output(run(h, j).path(zeros()), t)
                },
        ensures
            self.means(y.at(b, t, e), l.merged(self.rs, o_r, g_r, e)),
    {
        match fused {
            Some(f) => {
                self.law_output(layer, l, f.0, p.gate, y, b, t, e, o_r, g_r);
            },
            None => {
                let o = choose|o: Tensor<4>| #[trigger]
                    layer.chunks(p, o) && layer.outputs(o, p.gate, y);
                self.lemma_constants();
                assert forall|h: int, j: int|
                    0 <= h < layer.n_v_heads && 0 <= j < layer.v_head_dim implies self.means(
                    #[trigger] o.at(b, h, t, j),
                    o_r(h, j),
                ) by {
                    assert(self.run_means(p, b, h, j, run(h, j), g(h, j)));
                    self.law_training(layer, p, o, b, h, j, run(h, j), g(h, j), t);
                }
                self.law_output(layer, l, o, p.gate, y, b, t, e, o_r, g_r);
            },
        }
    }

    /// What the fused kernels are given in a training pass stands for the recurrence over
    /// the projection from zeros, and they are given it for the bare CUDA backend and chunks
    /// of up to sixteen tokens, and nowhere else.
    pub proof fn law_fused_call(
        &self,
        layer: KdaModule,
        kind: BackendKind,
        p: Projection,
        r: Option<FusedCall>,
        b: int,
        h: int,
        j: int,
        run: Run,
        g: spec_fn(int, int) -> real,
    )
        requires
            self.means(0, 0real),
            layer.groups_values(),
            layer.projection_shaped(p, p.v.dims@[0] as int, p.v.dims@[2] as int),
            p.v.has(b, h, 0, j),
            self.run_means(p, b, h, j, run, g),
            layer.launches(kind, p, r),
        ensures
            r is Some <==> kind == BackendKind::CudaBare && layer.chunk_size <= 16,
            r matches Some(c) ==> {
                &&& c.scale == 1
                &&& c.chunk_size == layer.chunk_size
                &&& self.operands_mean(
                    (Operands {
                        dims: seq![
                            p.v.dims@[0] as int,
                            layer.n_v_heads as int,
                            p.v.dims@[2] as int,
                            layer.head_dim as int,
                            layer.v_head_dim as int,
                        ],
                        q: c.q.elems(),
                        k: c.k.elems(),
                        v: c.v.elems(),
                        g: c.g.elems(),
                        erase: c.b.elems(),
                        write: c.w.elems(),
                        state: c.state.elems(),
                    }),
                    b,
                    h,
                    j,
                    run,
                    g,
                    zeros(),
                )
            },
    {
        if let Some(c) = r {
            let x = Operands {
                dims: seq![
                    p.v.dims@[0] as int,
                    layer.n_v_heads as int,
                    p.v.dims@[2] as int,
                    layer.head_dim as int,
                    layer.v_head_dim as int,
                ],
                q: c.q.elems(),
                k: c.k.elems(),
                v: c.v.elems(),
                g: c.g.elems(),
                erase: c.b.elems(),
                write: c.w.elems(),
                state: c.state.elems(),
            };
            self.lemma_operands(layer, p, c.state, x, b, h, j, run, g);
        }
    }
}

/// What a layer gives has the extents of its input and its dimensions: queries, keys and
/// log-decays one row of key channels per head and token, values and gates one row of value
/// channels, outputs the width of the model, and a state a matrix per value head.
pub proof fn law_extents(
    layer: KdaModule,
    x: Tensor<3>,
    p: Projection,
    trained: Tensor<3>,
    given: Option<Tensor<4>>,
    update_state: bool,
    y: Tensor<3>,
    after: Option<Tensor<4>>,
)
    requires
        layer.wf(),
        layer.projects(x, p),
        layer.trains(x, trained),
        given matches Some(s) ==> s.shaped(
            x.dims@[0] as int,
            layer.n_v_heads as int,
            layer.head_dim as int,
            layer.v_head_dim as int,
        ),
        layer.answers(x, given, update_state, y, after),
    ensures
        ({
            let b = x.dims@[0] as int;
            let t = x.dims@[1] as int;
            let h = if layer.n_v_heads > layer.n_heads {
                layer.n_v_heads as int
            } else {
                layer.n_heads as int
            };
            let hv = layer.n_v_heads as int;
            let k = layer.head_dim as int;
            let v = layer.v_head_dim as int;
            &&& p.q.shaped(b, h, t, k) && p.k.shaped(b, h, t, k) && p.g.shaped(b, h, t, k)
            &&& p.beta_k.shaped(b, h, t, k) && p.beta_v.shaped(b, h, t, v)
            &&& p.v.shaped(b, hv, t, v) && p.gate.shaped(b, hv, t, v)
            &&& trained.shaped(b, t, layer.d_model as int)
            &&& y.shaped(b, t, layer.d_model as int)
            &&& after is Some
            &&& after.unwrap().shaped(b, hv, k, v)
        }),
{
    layer.lemma_projection_shaped(x, p);
    let (p1, o1) = choose|p: Projection, o: Tensor<4>|
        {
            &&& #[trigger] layer.projects(x, p)
            &&& #[trigger] layer.chunks(p, o)
            &&& layer.outputs(o, p.gate, trained)
        };
    layer.lemma_projection_shaped(x, p1);
    let last = after.unwrap();
    let s = choose|s: Tensor<4>| #[trigger]
        layer.starts(given, x.dims@[0] as int, s) && layer.forwards(x, s, update_state, y, last);
    let (p2, o2) = choose|p: Projection, o: Tensor<4>|
        {
            &&& #[trigger] layer.projects(x, p)
            &&& #[trigger] layer.attends(p, s, update_state, o, last)
            &&& layer.outputs(o, p.gate, y)
        };
    layer.lemma_projection_shaped(x, p2);
    if update_state {
        let n = x.dims@[1] as int;
        let trace = choose|trace: Seq<Tensor<4>>|
            {
                &&& trace.len() == n - 0 + 1
                &&& trace[0] == s
                &&& trace[n - 0] == last
                &&& #[trigger] traces(p2, 0, trace, o2)
            };
        layer.lemma_trace_shaped(p2, trace, o2, x.dims@[0] as int, n);
    }
}

} // verus!
