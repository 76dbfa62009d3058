//! The training pass: the chunked form of the recurrence.
use crate::backend::{chunk_fits, chunk_forward, chunk_gives};
use crate::fused::{fused_applies, kda_fused_chunk, BackendKind, FusedCall, FUSED_SCALE};
use crate::layer::KdaModule;
use crate::projection::Projection;
use crate::tensor::Tensor;
use vstd::prelude::*;

verus! {

impl KdaModule {
    /// A chunked pass over `t` tokens in `b` batches can be held in memory.
    pub open spec fn chunks_fit(&self, b: int, t: int) -> bool {
        &&& self.chunk_size > 0
        &&& chunk_fits(
            b,
            self.n_v_heads as int,
            t,
            self.head_dim as int,
            self.v_head_dim as int,
            self.chunk_size as int,
        )
    }

    /// `o` holds outputs that the chunked form may give from a state of zeros, with the
    /// write strengths as erase and as value gate and no scale.
    pub open spec fn chunks(&self, p: Projection, o: Tensor<4>) -> bool {
        &&& o.wf()
        &&& o.dims@ == p.v.dims@
        &&& exists|s: Tensor<4>|
            {
                &&& #[trigger] self.starts(None, p.v.dims@[0] as int, s)
                &&& chunk_gives(
                    seq![
                        p.v.dims@[0] as int,
                        self.n_v_heads as int,
                        p.v.dims@[2] as int,
                        self.head_dim as int,
                        self.v_head_dim as int,
                    ],
                    p.q.elems(),
                    p.k.elems(),
                    p.v.elems(),
                    p.g.elems(),
                    p.beta_k.elems(),
                    p.beta_v.elems(),
                    s.elems(),
                    1,
                    self.chunk_size as int,
                    o.elems(),
                )
            }
    }

    /// The chunked form over projected inputs: the outputs `[B, HV, T, V]` of the heads.
    pub fn chunk(&self, p: &Projection) -> (o: Tensor<4>)
        requires
            self.wf(),
            self.groups_values(),
            self.projection_shaped(*p, p.v.dims@[0] as int, p.v.dims@[2] as int),
            p.v.dims@[2] > 0,
            self.fits(p.v.dims@[0] as int, p.v.dims@[2] as int),
            self.chunks_fit(p.v.dims@[0] as int, p.v.dims@[2] as int),
        ensures
            self.chunks(*p, o),
    {
        proof {
            self.lemma_fits(p.v.dims@[0] as int, p.v.dims@[2] as int);
        }
        let s = self.fresh_state(p.v.dims[0]);
        proof {
            Self::lemma_laid_out4(
                s,
                p.v.dims@[0] as int,
                self.n_v_heads as int,
                self.head_dim as int,
                self.v_head_dim as int,
            );
            assert(p.k.dims@ =~= p.q.dims@);
            assert(p.g.dims@ =~= p.q.dims@);
            assert(p.beta_k.dims@ =~= p.q.dims@);
            assert(p.beta_v.dims@ =~= p.v.dims@);
            assert(s.dims@ =~= seq![p.q.dims@[0], p.q.dims@[1], p.q.dims@[3], p.v.dims@[3]]);
        }
        chunk_forward(
            &p.q,
            &p.k,
            &p.v,
            &p.g,
            &p.beta_k,
            &p.beta_v,
            &s,
            FUSED_SCALE,
            self.chunk_size,
        )
    }

    /// `r` is the kernel launch of a training pass: where the fused path applies, the
    /// elements of the projection, a state of zeros and no scale.
    pub open spec fn launches(&self, kind: BackendKind, p: Projection, r: Option<FusedCall>) -> bool {
        &&& r is Some <==> fused_applies(kind, self.chunk_size as int)
        &&& r matches Some(c) ==> {
            &&& c.q.dims@ == p.q.dims@ && c.q.bits@ == p.q.bits@
            &&& c.k.dims@ == p.k.dims@ && c.k.bits@ == p.k.bits@
            &&& c.v.dims@ == p.v.dims@ && c.v.bits@ == p.v.bits@
            &&& c.g.dims@ == p.g.dims@ && c.g.bits@ == p.g.bits@
            &&& c.b.dims@ == p.beta_k.dims@ && c.b.bits@ == p.beta_k.bits@
            &&& c.w.dims@ == p.beta_v.dims@ && c.w.bits@ == p.beta_v.bits@
            &&& self.starts(None, p.v.dims@[0] as int, c.state)
            &&& c.scale == 1
            &&& c.chunk_size == self.chunk_size
        }
    }

    /// The kernel launch of a training pass, where the fused path applies.
    pub fn fused_call(&self, kind: BackendKind, p: &Projection) -> (r: Option<FusedCall>)
        requires
            p.v.dims@[0] * self.n_v_heads * self.head_dim * self.v_head_dim <= usize::MAX,
        ensures
            r is Some <==> fused_applies(kind, self.chunk_size as int),
            r matches Some(c) ==> {
                &&& c.q.dims@ == p.q.dims@ && c.q.bits@ == p.q.bits@
                &&& c.k.dims@ == p.k.dims@ && c.k.bits@ == p.k.bits@
                &&& c.v.dims@ == p.v.dims@ && c.v.bits@ == p.v.bits@
                &&& c.g.dims@ == p.g.dims@ && c.g.bits@ == p.g.bits@
                &&& c.b.dims@ == p.beta_k.dims@ && c.b.bits@ == p.beta_k.bits@
                &&& c.w.dims@ == p.beta_v.dims@ && c.w.bits@ == p.beta_v.bits@
                &&& self.starts(None, p.v.dims@[0] as int, c.state)
                &&& c.scale == 1
                &&& c.chunk_size == self.chunk_size
            },
            self.launches(kind, *p, r),
    {
        kda_fused_chunk(
            kind,
            p.q.clone(),
            p.k.clone(),
            p.v.clone(),
            p.g.clone(),
            p.beta_k.clone(),
            p.beta_v.clone(),
            self.fresh_state(p.v.dims[0]),
            self.chunk_size,
        )
    }

    /// `y` is an output that a training pass may give for the projection `p`, once the
    /// kernels have given `fused`.
    pub open spec fn finishes(
        &self,
        p: Projection,
        fused: Option<(Tensor<4>, Tensor<4>)>,
        y: Tensor<3>,
    ) -> bool {
        match fused {
            Some(f) => self.outputs(f.0, p.gate, y),
            None => exists|o: Tensor<4>| #[trigger] self.chunks(p, o) && self.outputs(o, p.gate, y),
        }
    }

    /// The rest of a training pass, once a kernel launch has been tried: its outputs
    /// where there are any, else those of the tensor path.
    pub fn finish_train(
        &self,
        p: &Projection,
        fused: Option<(Tensor<4>, Tensor<4>)>,
    ) -> (y: Tensor<3>)
        requires
            self.wf(),
            self.groups_values(),
            self.projection_shaped(*p, p.v.dims@[0] as int, p.v.dims@[2] as int),
            p.v.dims@[2] > 0,
            self.fits(p.v.dims@[0] as int, p.v.dims@[2] as int),
            fused matches Some(f) ==> f.0.wf() && f.0.dims@ == p.v.dims@,
            fused is None ==> self.chunks_fit(p.v.dims@[0] as int, p.v.dims@[2] as int),
        ensures
            y.shaped(p.v.dims@[0] as int, p.v.dims@[2] as int, self.d_model as int),
            match fused {
                Some(f) => self.outputs(f.0, p.gate, y),
                None => exists|o: Tensor<4>| #[trigger]
                    self.chunks(*p, o) && self.outputs(o, p.gate, y),
            },
            self.finishes(*p, fused, y),
    {
        let o = match fused {
            Some((o, _)) => o,
            None => self.chunk(p),
        };
        assert(p.gate.dims@ =~= o.dims@);
        self.output(&o, &p.gate)
    }

    /// `y` is an output that a training pass without the kernels may give for `x`.
    pub open spec fn trains(&self, x: Tensor<3>, y: Tensor<3>) -> bool {
        exists|p: Projection, o: Tensor<4>|
            {
                &&& #[trigger] self.projects(x, p)
                &&& #[trigger] self.chunks(p, o)
                &&& self.outputs(o, p.gate, y)
            }
    }

    /// Training forward pass over `x` `[B, T, D]`: the chunked form of the recurrence,
    /// on the tensor path.
    pub fn forward_train(&self, x: Tensor<3>) -> (y: Tensor<3>)
        requires
            self.wf(),
            self.groups_values(),
            self.takes(x),
            self.chunks_fit(x.dims@[0] as int, x.dims@[1] as int),
        ensures
            y.shaped(x.dims@[0] as int, x.dims@[1] as int, self.d_model as int),
            self.trains(x, y),
    {
        let p = self.project(&x);
        self.finish_train(&p, None)
    }
}

} // verus!
