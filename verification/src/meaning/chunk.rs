//! What the chunked form of a training pass stands for.
use crate::backend::chunk_gives;
use crate::chunkwise::Run;
use crate::layer::KdaModule;
use crate::meaning::Meaning;
use crate::passes::zeros;
use crate::projection::Projection;
use crate::tensor::{elem4, lemma_offset4, offset4, Tensor};
use vstd::prelude::*;

verus! {

/// Row-major position of an element, by batch, head, row and column.
pub open spec fn place(heads: int, rows: int, cols: int, b: int, h: int, r: int, c: int) -> int {
    ((b * heads + h) * rows + r) * cols + c
}

/// The operands of a call of the chunked kernel, in row-major order: `q`, `k`, `g` and
/// `erase` over key channels, `v` and `write` over value channels, `state` over both.
pub struct Operands {
    pub dims: Seq<int>,
    pub q: Seq<u32>,
    pub k: Seq<u32>,
    pub v: Seq<u32>,
    pub g: Seq<u32>,
    pub erase: Seq<u32>,
    pub write: Seq<u32>,
    pub state: Seq<u32>,
}

impl Operands {
    /// `out` is an output that the kernel may give, without a scale, in chunks of `c`.
    pub open spec fn give(&self, c: int, out: Seq<u32>) -> bool {
        chunk_gives(
            self.dims,
            self.q,
            self.k,
            self.v,
            self.g,
            self.erase,
            self.write,
            self.state,
            1,
            c,
            out,
        )
    }

    /// Position in an operand over key channels.
    pub open spec fn at_key(&self, b: int, h: int, t: int, i: int) -> int {
        place(self.dims[1], self.dims[2], self.dims[3], b, h, t, i)
    }

    /// Position in an operand over value channels.
    pub open spec fn at_value(&self, b: int, h: int, t: int, j: int) -> int {
        place(self.dims[1], self.dims[2], self.dims[4], b, h, t, j)
    }

    /// Position in the state.
    pub open spec fn at_state(&self, b: int, h: int, i: int, j: int) -> int {
        place(self.dims[1], self.dims[3], self.dims[4], b, h, i, j)
    }
}

impl Meaning {
    /// The operands of value channel `j` of head `h` in batch `b` stand for `run`, from the
    /// state `first`: the decays are the exponentials of the log-decays, and erasing and
    /// writing have one strength.
    pub open spec fn operands_mean(
        &self,
        x: Operands,
        b: int,
        h: int,
        j: int,
        run: Run,
        g: spec_fn(int, int) -> real,
        first: spec_fn(int) -> real,
    ) -> bool {
        &&& 0 <= b < x.dims[0] && 0 <= h < x.dims[1] && 0 <= j < x.dims[4]
        &&& run.dk == x.dims[3]
        &&& forall|t: int, i: int|
            0 <= t < x.dims[2] && 0 <= i < run.dk ==> {
                &&& self.means(x.q[#[trigger] x.at_key(b, h, t, i)], (run.q)(t, i))
                &&& self.means(x.k[x.at_key(b, h, t, i)], (run.k)(t, i))
                &&& self.means(x.g[x.at_key(b, h, t, i)], g(t, i))
                &&& (run.alpha)(t, i) == (self.rs.exp)(g(t, i))
                &&& self.means(x.erase[x.at_key(b, h, t, i)], (run.beta)(t))
            }
        &&& forall|t: int|
            0 <= t < x.dims[2] ==> {
                &&& self.means(x.v[#[trigger] x.at_value(b, h, t, j)], (run.v)(t))
                &&& self.means(x.write[x.at_value(b, h, t, j)], (run.beta)(t))
            }
        &&& forall|i: int|
            0 <= i < run.dk ==> self.means(x.state[#[trigger] x.at_state(b, h, i, j)], first(i))
    }

    /// The outputs of value channel `j` of head `h` in batch `b` stand for those of the
    /// chunked form of `run` with chunks of `c` tokens.
    pub open spec fn chunks_mean(
        &self,
        x: Operands,
        c: int,
        out: Seq<u32>,
        b: int,
        h: int,
        j: int,
        run: Run,
        first: spec_fn(int) -> real,
    ) -> bool {
        exists|bound: spec_fn(int, int) -> real, outs: spec_fn(int) -> real|
            {
                &&& #[trigger] run.chunked(c, x.dims[2], first, bound, outs)
                &&& forall|t: int|
                    0 <= t < x.dims[2] ==> self.means(
                        out[#[trigger] x.at_value(b, h, t, j)],
                        outs(t),
                    )
            }
    }

    /// The chunked kernel computes the WY form of its operands.
    pub open spec fn keeps_chunks(&self) -> bool {
        forall|
            x: Operands,
            c: int,
            out: Seq<u32>,
            b: int,
            h: int,
            j: int,
            run: Run,
            g: spec_fn(int, int) -> real,
            first: spec_fn(int) -> real,
        |
            #![trigger x.give(c, out), self.operands_mean(x, b, h, j, run, g, first)]
            c > 0 && x.give(c, out) && self.operands_mean(x, b, h, j, run, g, first)
                ==> self.chunks_mean(x, c, out, b, h, j, run, first)
    }

    /// An element of a tensor, by its position.
    proof fn lemma_place(x: Tensor<4>, b: int, h: int, r: int, c: int)
        requires
            x.wf(),
            x.has(b, h, r, c),
        ensures
            x.elems()[place(
                x.dims@[1] as int,
                x.dims@[2] as int,
                x.dims@[3] as int,
                b,
                h,
                r,
                c,
            )] == x.at(b, h, r, c),
    {
        reveal(elem4);
        lemma_offset4(x.dims@, b, h, r, c);
        assert(offset4(x.dims@, b, h, r, c) == place(
            x.dims@[1] as int,
            x.dims@[2] as int,
            x.dims@[3] as int,
            b,
            h,
            r,
            c,
        ));
    }

    /// What the kernel is given in a training pass: every element of the projection, and a
    /// state of zeros.
    pub(crate) proof fn lemma_operands(
        &self,
        layer: KdaModule,
        p: Projection,
        s: Tensor<4>,
        x: Operands,
        b: int,
        h: int,
        j: int,
        run: Run,
        g: spec_fn(int, int) -> real,
    )
        requires
            self.means(0, 0real),
            layer.groups_values(),
            layer.projection_shaped(p, p.v.dims@[0] as int, p.v.dims@[2] as int),
            p.v.has(b, h, 0, j),
            self.run_means(p, b, h, j, run, g),
            layer.starts(None, p.v.dims@[0] as int, s),
            x.dims == seq![
                p.v.dims@[0] as int,
                layer.n_v_heads as int,
                p.v.dims@[2] as int,
                layer.head_dim as int,
                layer.v_head_dim as int,
            ],
            x.q == p.q.elems(),
            x.k == p.k.elems(),
            x.v == p.v.elems(),
            x.g == p.g.elems(),
            x.erase == p.beta_k.elems(),
            x.write == p.beta_v.elems(),
            x.state == s.elems(),
        ensures
            self.operands_mean(x, b, h, j, run, g, zeros()),
    {
        assert forall|t: int, i: int| 0 <= t < x.dims[2] && 0 <= i < run.dk implies {
            &&& self.means(x.q[#[trigger] x.at_key(b, h, t, i)], (run.q)(t, i))
            &&& self.means(x.k[x.at_key(b, h, t, i)], (run.k)(t, i))
            &&& self.means(x.g[x.at_key(b, h, t, i)], g(t, i))
            &&& (run.alpha)(t, i) == (self.rs.exp)(g(t, i))
            &&& self.means(x.erase[x.at_key(b, h, t, i)], (run.beta)(t))
        } by {
            Self::lemma_place(p.q, b, h, t, i);
            Self::lemma_place(p.k, b, h, t, i);
            Self::lemma_place(p.g, b, h, t, i);
            Self::lemma_place(p.beta_k, b, h, t, i);
            assert(self.means(p.q.at(b, h, t, i), (run.q)(t, i)));
            assert(self.means(p.k.at(b, h, t, i), (run.k)(t, i)));
            assert(self.means(p.g.at(b, h, t, i), g(t, i)));
            assert(self.means(p.beta_k.at(b, h, t, i), (run.beta)(t)));
        }
        assert forall|t: int| 0 <= t < x.dims[2] implies {
            &&& self.means(x.v[#[trigger] x.at_value(b, h, t, j)], (run.v)(t))
            &&& self.means(x.write[x.at_value(b, h, t, j)], (run.beta)(t))
        } by {
            Self::lemma_place(p.v, b, h, t, j);
            Self::lemma_place(p.beta_v, b, h, t, j);
            assert(self.means(p.v.at(b, h, t, j), (run.v)(t)));
            assert(self.means(p.beta_v.at(b, h, t, j), (run.beta)(t)));
        }
        let first = zeros();
        assert forall|i: int| 0 <= i < run.dk implies self.means(
            x.state[#[trigger] x.at_state(b, h, i, j)],
            first(i),
        ) by {
            Self::lemma_place(s, b, h, i, j);
            assert(s.at(b, h, i, j) == 0);
        }
    }

    /// Where the kernel computes the WY form of its operands, the chunked outputs of a
    /// projection are those of the chunked form, over all its elements and from zeros.
    pub proof fn law_chunk_is_wy_form(
        &self,
        layer: KdaModule,
        p: Projection,
        o: Tensor<4>,
        b: int,
        h: int,
        j: int,
        run: Run,
        g: spec_fn(int, int) -> real,
    )
        requires
            self.means(0, 0real),
            self.keeps_chunks(),
            layer.groups_values(),
            layer.chunk_size > 0,
            layer.projection_shaped(p, p.v.dims@[0] as int, p.v.dims@[2] as int),
            p.v.has(b, h, 0, j),
            layer.chunks(p, o),
            self.run_means(p, b, h, j, run, g),
        ensures
            exists|bound: spec_fn(int, int) -> real, outs: spec_fn(int) -> real|
                {
                    &&& #[trigger] run.chunked(
                        layer.chunk_size as int,
                        p.v.dims@[2] as int,
                        zeros(),
                        bound,
                        outs,
                    )
                    &&& forall|t: int|
                        0 <= t < p.v.dims@[2] ==> self.means(
                            #[trigger] o.at(b, h, t, j),
                            outs(t),
                        )
                },
    {
        let c = layer.chunk_size as int;
        let n = p.v.dims@[2] as int;
        let dims = seq![
            p.v.dims@[0] as int,
            layer.n_v_heads as int,
            p.v.dims@[2] as int,
            layer.head_dim as int,
            layer.v_head_dim as int,
        ];
        let s = choose|s: Tensor<4>|
            {
                &&& #[trigger] layer.starts(None, p.v.dims@[0] as int, s)
                &&& chunk_gives(
                    dims,
                    p.q.elems(),
                    p.k.elems(),
                    p.v.elems(),
                    p.g.elems(),
                    p.beta_k.elems(),
                    p.beta_v.elems(),
                    s.elems(),
                    1,
                    c,
                    o.elems(),
                )
            };
        let x = Operands {
            dims,
            q: p.q.elems(),
            k: p.k.elems(),
            v: p.v.elems(),
            g: p.g.elems(),
            erase: p.beta_k.elems(),
            write: p.beta_v.elems(),
            state: s.elems(),
        };
        assert(x.give(c, o.elems()));
        self.lemma_operands(layer, p, s, x, b, h, j, run, g);
        assert(self.chunks_mean(x, c, o.elems(), b, h, j, run, zeros()));
        let (bound, outs) = choose|bound: spec_fn(int, int) -> real, outs: spec_fn(int) -> real|
            {
                &&& #[trigger] run.chunked(c, n, zeros(), bound, outs)
                &&& forall|t: int|
                    0 <= t < n ==> self.means(
                        o.elems()[#[trigger] x.at_value(b, h, t, j)],
                        outs(t),
                    )
            };
        assert forall|t: int| 0 <= t < n implies self.means(
            #[trigger] o.at(b, h, t, j),
            outs(t),
        ) by {
            Self::lemma_place(o, b, h, t, j);
            assert(self.means(o.elems()[x.at_value(b, h, t, j)], outs(t)));
        }
    }

    /// Training is the recurrence: where the kernel computes the WY form of its operands,
    /// the chunked outputs of a projection stand for those of the recurrence over that
    /// projection from zeros, for every layer and every chunk size.
    pub proof fn law_training(
        &self,
        layer: KdaModule,
        p: Projection,
        o: Tensor<4>,
        b: int,
        h: int,
        j: int,
        run: Run,
        g: spec_fn(int, int) -> real,
        t: int,
    )
        requires
            self.means(0, 0real),
            self.keeps_chunks(),
            layer.groups_values(),
            layer.chunk_size > 0,
            layer.projection_shaped(p, p.v.dims@[0] as int, p.v.dims@[2] as int),
            p.v.has(b, h, t, j),
            layer.chunks(p, o),
            self.run_means(p, b, h, j, run, g),
        ensures
            self.means(o.at(b, h, t, j), run.output(run.path(zeros()), t)),
    {
        self.law_chunk_is_wy_form(layer, p, o, b, h, j, run, g);
        let c = layer.chunk_size as int;
        let n = p.v.dims@[2] as int;
        let (bound, outs) = choose|bound: spec_fn(int, int) -> real, outs: spec_fn(int) -> real|
            {
                &&& #[trigger] run.chunked(c, n, zeros(), bound, outs)
                &&& forall|t: int|
                    0 <= t < n ==> self.means(#[trigger] o.at(b, h, t, j), outs(t))
            };
        run.law_chunk_size_does_not_matter(n, zeros(), c, bound, outs, c, bound, outs);
        assert(outs(t) == run.output(run.path(zeros()), t));
    }
}

} // verus!
