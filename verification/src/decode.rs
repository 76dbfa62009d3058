//! Decoding: the exact recurrence, one token after the other.
use crate::backend::{exp_gives, f32_mul, matmul, matmul_gives, sum_gives, sum_rows};
use crate::layer::KdaModule;
use crate::ops::{add4, constant, exp4, join_tokens, mul4, over_keys, over_values, sub4, token};
use crate::projection::Projection;
use crate::recurrence::{f32_arith, rewritten};
use crate::tensor::{laid_out, lemma_numel4, Tensor};
use vstd::prelude::*;

verus! {

/// Column `j` of a head's state after the decay `d` of one token.
pub open spec fn decayed(s: Tensor<4>, d: Tensor<4>, b: int, h: int, j: int) -> Seq<u32> {
    Seq::new(s.dims@[2] as nat, |i: int| f32_mul(s.at(b, h, i, j), d.at(b, h, 0, i)))
}

/// The products of a column with the key channels of token `t`.
pub open spec fn weighted(column: Seq<u32>, x: Tensor<4>, b: int, h: int, t: int) -> Seq<u32> {
    Seq::new(column.len(), |i: int| f32_mul(column[i], x.at(b, h, t, i)))
}

/// `d` `[B, H, 1, K]` holds decays that token `t` may have.
pub open spec fn token_decays(p: Projection, t: int, d: Tensor<4>) -> bool {
    &&& d.shaped(p.g.dims@[0] as int, p.g.dims@[1] as int, 1, p.g.dims@[3] as int)
    &&& forall|b: int, h: int, i: int|
        d.has(b, h, 0, i) ==> exp_gives(p.g.at(b, h, t, i), #[trigger] d.at(b, h, 0, i))
}

/// Value channel `j` of one head takes the step of token `t`: decay, erase, write, read.
pub open spec fn token_column(
    s: Tensor<4>,
    p: Projection,
    t: int,
    d: Tensor<4>,
    next: Tensor<4>,
    out: Tensor<4>,
    b: int,
    h: int,
    j: int,
) -> bool {
    let column = decayed(s, d, b, h, j);
    &&& exists|r: u32|
        {
            &&& #[trigger] sum_gives(weighted(column, p.k, b, h, t), r)
            &&& forall|i: int|
                0 <= i < s.dims@[2] ==> #[trigger] next.at(b, h, i, j) == rewritten(
                    f32_arith(),
                    column[i],
                    p.k.at(b, h, t, i),
                    p.v.at(b, h, t, j),
                    p.beta_v.at(b, h, t, j),
                    r,
                )
        }
    &&& sum_gives(weighted(next.col(b, h, j), p.q, b, h, t), out.at(b, h, t, j))
}

/// Token `t` takes the state `s` to `next` and gives the outputs of that token in `out`.
pub open spec fn token_steps(
    s: Tensor<4>,
    p: Projection,
    t: int,
    next: Tensor<4>,
    out: Tensor<4>,
) -> bool {
    &&& next.wf()
    &&& next.dims@ == s.dims@
    &&& exists|d: Tensor<4>|
        {
            &&& #[trigger] token_decays(p, t, d)
            &&& forall|b: int, h: int, j: int|
                0 <= b < s.dims@[0] && 0 <= h < s.dims@[1] && 0 <= j < s.dims@[3]
                    ==> #[trigger] token_column(s, p, t, d, next, out, b, h, j)
        }
}

/// `trace` holds the states before, between and after the tokens from `lo` on.
pub open spec fn traces(p: Projection, lo: int, trace: Seq<Tensor<4>>, out: Tensor<4>) -> bool {
    forall|n: int|
        0 <= n < trace.len() - 1 ==> token_steps(
            #[trigger] trace[n],
            p,
            lo + n,
            trace[n + 1],
            out,
        )
}

/// The tokens from `lo` up to `hi` take the state `s` to `last` and give their outputs in
/// `out`.
pub open spec fn decodes(
    p: Projection,
    lo: int,
    hi: int,
    s: Tensor<4>,
    last: Tensor<4>,
    out: Tensor<4>,
) -> bool {
    exists|trace: Seq<Tensor<4>>|
        {
            &&& trace.len() == hi - lo + 1
            &&& trace[0] == s
            &&& trace[hi - lo] == last
            &&& #[trigger] traces(p, lo, trace, out)
        }
}

/// Every query of `p` reads the state `s`.
pub open spec fn reads(p: Projection, s: Tensor<4>, out: Tensor<4>) -> bool {
    forall|b: int, h: int, t: int, j: int|
        out.has(b, h, t, j) ==> matmul_gives(
            p.q.row(b, h, t),
            s.col(b, h, j),
            #[trigger] out.at(b, h, t, j),
        )
}

/// Token `t` of `out` is `o` `[B, H, 1, V]`.
spec fn holds_token(out: Tensor<4>, t: int, o: Tensor<4>) -> bool {
    forall|b: int, h: int, j: int|
        o.has(b, h, 0, j) ==> #[trigger] out.at(b, h, t, j) == o.at(b, h, 0, j)
}

/// Token `t` takes the state `s` to `next` and gives `o`, wherever `o` is kept.
spec fn settles(s: Tensor<4>, p: Projection, t: int, next: Tensor<4>, o: Tensor<4>) -> bool {
    forall|out: Tensor<4>|
        holds_token(out, t, o) ==> #[trigger] token_steps(s, p, t, next, out)
}

/// One token of the recurrence: the next state and the outputs `[B, H, 1, V]`.
fn step_token(s: &Tensor<4>, p: &Projection, t: usize) -> (r: (Tensor<4>, Tensor<4>))
    requires
        s.wf(),
        laid_out(s.dims@),
        t < p.q.dims@[2],
        p.q.shaped(
            s.dims@[0] as int,
            s.dims@[1] as int,
            p.q.dims@[2] as int,
            s.dims@[2] as int,
        ),
        p.k.wf() && p.k.dims@ =~= p.q.dims@,
        p.g.wf() && p.g.dims@ =~= p.q.dims@,
        p.v.shaped(
            s.dims@[0] as int,
            s.dims@[1] as int,
            p.q.dims@[2] as int,
            s.dims@[3] as int,
        ),
        p.beta_v.wf() && p.beta_v.dims@ =~= p.v.dims@,
    ensures
        r.0.wf(),
        r.0.dims@ == s.dims@,
        r.1.shaped(s.dims@[0] as int, s.dims@[1] as int, 1, s.dims@[3] as int),
        settles(*s, *p, t as int, r.0, r.1),
{
    proof {
        assert(s.bits.len() <= usize::MAX);
        lemma_numel4(s.dims@);
    }
    let dv = s.dims[3];
    let dk = s.dims[2];
    let d = exp4(&token(&p.g, t));
    let s1 = mul4(s, &over_values(&d, 0, dv));
    let k = over_values(&p.k, t, dv);
    let masked = mul4(&s1, &k);
    let recalled = sum_rows(&masked);
    let beta = token(&p.beta_v, t);
    let erased = mul4(&recalled, &beta);
    let s2 = sub4(&s1, &mul4(&k, &over_keys(&erased, 0, dk)));
    let written = mul4(&token(&p.v, t), &beta);
    let s3 = add4(&s2, &mul4(&k, &over_keys(&written, 0, dk)));
    let q = over_values(&p.q, t, dv);
    let read = mul4(&s3, &q);
    let o = sum_rows(&read);
    proof {
        assert(token_decays(*p, t as int, d));
        assert forall|out: Tensor<4>| holds_token(out, t as int, o) implies #[trigger] token_steps(
            *s,
            *p,
            t as int,
            s3,
            out,
        ) by {
            assert forall|b: int, h: int, j: int|
                0 <= b < s.dims@[0] && 0 <= h < s.dims@[1] && 0 <= j < s.dims@[3] implies #[trigger]
            token_column(*s, *p, t as int, d, s3, out, b, h, j) by {
                let column = decayed(*s, d, b, h, j);
                let r = recalled.at(b, h, 0, j);
                assert(masked.col(b, h, j) =~= weighted(column, p.k, b, h, t as int));
                assert(read.col(b, h, j) =~= weighted(s3.col(b, h, j), p.q, b, h, t as int));
                assert(sum_gives(read.col(b, h, j), o.at(b, h, 0, j)));
                assert(sum_gives(weighted(column, p.k, b, h, t as int), r));
                assert(out.at(b, h, t as int, j) == o.at(b, h, 0, j));
                assert forall|i: int| 0 <= i < s.dims@[2] implies #[trigger] s3.at(b, h, i, j)
                    == rewritten(
                    f32_arith(),
                    column[i],
                    p.k.at(b, h, t as int, i),
                    p.v.at(b, h, t as int, j),
                    p.beta_v.at(b, h, t as int, j),
                    r,
                ) by {
                    assert(s1.at(b, h, i, j) == column[i]);
                }
            }
        }
    }
    (s3, o)
}

impl KdaModule {
    /// As many value heads as key heads, or whole groups of them.
    pub open spec fn groups_values(&self) -> bool {
        self.n_v_heads >= self.n_heads
    }

    /// `s` has the extents of a state for `b` batches.
    pub open spec fn state_shaped(&self, s: Tensor<4>, b: int) -> bool {
        s.shaped(b, self.n_v_heads as int, self.head_dim as int, self.v_head_dim as int)
    }

    /// `s` is the state that a pass starts from: the one given, or zeros.
    pub open spec fn starts(&self, given: Option<Tensor<4>>, b: int, s: Tensor<4>) -> bool {
        match given {
            Some(g) => s == g,
            None => {
                &&& self.state_shaped(s, b)
                &&& forall|i: int, h: int, k: int, v: int|
                    s.has(i, h, k, v) ==> #[trigger] s.at(i, h, k, v) == 0
            },
        }
    }

    /// `o` and `next` are what the recurrence gives from the state `s`: it either runs
    /// over all tokens, or the queries read a state that stays as it is.
    pub open spec fn attends(
        &self,
        p: Projection,
        s: Tensor<4>,
        update_state: bool,
        o: Tensor<4>,
        next: Tensor<4>,
    ) -> bool {
        &&& o.wf()
        &&& o.dims@ == p.v.dims@
        &&& if update_state {
            decodes(p, 0, p.v.dims@[2] as int, s, next, o)
        } else {
            reads(p, s, o) && next == s
        }
    }

    /// Zeros with the extents of a state.
    pub(crate) fn fresh_state(&self, b: usize) -> (s: Tensor<4>)
        requires
            b * self.n_v_heads * self.head_dim * self.v_head_dim <= usize::MAX,
        ensures
            self.starts(None, b as int, s),
    {
        let dims = [b, self.n_v_heads, self.head_dim, self.v_head_dim];
        proof {
            lemma_numel4(dims@);
        }
        constant(dims, 0)
    }

    /// The recurrence over projected inputs: the outputs `[B, HV, T, V]` of the heads
    /// and the state after them.
    ///
    /// With `update_state` the state is decayed and updated token by token; without it
    /// every query reads the state as it is.
    pub fn attend(&self, p: &Projection, s: Tensor<4>, update_state: bool) -> (r: (
        Tensor<4>,
        Tensor<4>,
    ))
        requires
            self.wf(),
            self.groups_values(),
            self.state_shaped(s, p.v.dims@[0] as int),
            self.projection_shaped(*p, p.v.dims@[0] as int, p.v.dims@[2] as int),
            p.v.dims@[2] > 0,
            self.fits(p.v.dims@[0] as int, p.v.dims@[2] as int),
        ensures
            self.attends(*p, s, update_state, r.0, r.1),
            self.state_shaped(r.1, p.v.dims@[0] as int),
    {
        let ghost b = p.v.dims@[0] as int;
        let ghost n = p.v.dims@[2] as int;
        let ghost h = self.n_v_heads as int;
        let ghost dk = self.head_dim as int;
        let ghost dv = self.v_head_dim as int;
        proof {
            assert(p.v.bits.len() <= usize::MAX);
            lemma_numel4(p.v.dims@);
            Self::lemma_laid_out4(s, b, h, dk, dv);
            Self::lemma_laid_out4(p.q, b, h, n, dk);
            Self::lemma_laid_out4(p.v, b, h, n, dv);
            assert(p.v.dims@ =~= seq![p.q.dims@[0], p.q.dims@[1], p.q.dims@[2], s.dims@[3]]);
        }
        if !update_state {
            let o = matmul(&p.q, &s);
            assert(o.dims@ =~= p.v.dims@);
            return (o, s);
        }
        let tokens = p.v.dims[2];
        let ghost first = s;
        let ghost extents = s.dims@;
        let ghost mut trace = seq![s];
        let mut s = s;
        let mut outs: Vec<Tensor<4>> = Vec::new();
        let mut t: usize = 0;
        while t < tokens
            invariant
                t <= tokens,
                tokens == p.v.dims@[2],
                self.groups_values(),
                self.state_shaped(s, p.v.dims@[0] as int),
                s.dims@ == extents,
                laid_out(extents),
                self.projection_shaped(*p, p.v.dims@[0] as int, p.v.dims@[2] as int),
                outs@.len() == t,
                trace.len() == t + 1,
                trace[0] == first,
                trace[t as int] == s,
                forall|n: int|
                    0 <= n < t ==> (#[trigger] outs@[n]).shaped(
                        p.v.dims@[0] as int,
                        p.v.dims@[1] as int,
                        1,
                        p.v.dims@[3] as int,
                    ),
                forall|n: int|
                    0 <= n < t ==> settles(trace[n], *p, n, trace[n + 1], #[trigger] outs@[n]),
            decreases tokens - t,
        {
            let (next, o) = step_token(&s, p, t);
            outs.push(o);
            proof {
                trace = trace.push(next);
            }
            s = next;
            t = t + 1;
        }
        let o = join_tokens(&outs, p.v.dims);
        proof {
            assert forall|n: int| 0 <= n < trace.len() - 1 implies token_steps(
                #[trigger] trace[n],
                *p,
                0 + n,
                trace[n + 1],
                o,
            ) by {
                assert(settles(trace[n], *p, n, trace[n + 1], outs@[n]));
                assert(holds_token(o, n, outs@[n]));
            }
            assert(traces(*p, 0, trace, o));
        }
        (o, s)
    }

    /// `y` and `last` are an output and a state that the layer may give for `x` from the
    /// state `s`.
    pub open spec fn forwards(
        &self,
        x: Tensor<3>,
        s: Tensor<4>,
        update_state: bool,
        y: Tensor<3>,
        last: Tensor<4>,
    ) -> bool {
        exists|p: Projection, o: Tensor<4>|
            {
                &&& #[trigger] self.projects(x, p)
                &&& #[trigger] self.attends(p, s, update_state, o, last)
                &&& self.outputs(o, p.gate, y)
            }
    }

    /// `y` and the state `after` are what a pass over `x` may give, from the state `given`
    /// or, without one, from zeros.
    pub open spec fn answers(
        &self,
        x: Tensor<3>,
        given: Option<Tensor<4>>,
        update_state: bool,
        y: Tensor<3>,
        after: Option<Tensor<4>>,
    ) -> bool {
        &&& y.shaped(x.dims@[0] as int, x.dims@[1] as int, self.d_model as int)
        &&& after is Some
        &&& exists|s: Tensor<4>| #[trigger]
            self.starts(given, x.dims@[0] as int, s) && self.forwards(
                x,
                s,
                update_state,
                y,
                after.unwrap(),
            )
    }

    /// Decoding forward pass: the exact recurrence over the tokens of `x` `[B, T, D]`,
    /// from the given state `[B, HV, K, V]` or, without one, from zeros.
    ///
    /// With `update_state` the state after the last token is left in `state`; without it
    /// the tokens only read the state.
    pub fn forward(
        &self,
        x: Tensor<3>,
        state: &mut Option<Tensor<4>>,
        update_state: bool,
    ) -> (y: Tensor<3>)
        requires
            self.wf(),
            self.groups_values(),
            self.takes(x),
            *old(state) matches Some(s) ==> self.state_shaped(s, x.dims@[0] as int),
        ensures
            *final(state) is Some,
            self.state_shaped(final(state).unwrap(), x.dims@[0] as int),
            y.shaped(x.dims@[0] as int, x.dims@[1] as int, self.d_model as int),
            exists|s: Tensor<4>| #[trigger]
                self.starts(*old(state), x.dims@[0] as int, s) && self.forwards(
                    x,
                    s,
                    update_state,
                    y,
                    final(state).unwrap(),
                ),
            self.answers(x, *old(state), update_state, y, *final(state)),
    {
        let p = self.project(&x);
        proof {
            self.lemma_fits(x.dims@[0] as int, x.dims@[1] as int);
        }
        let s = match state.take() {
            Some(s) => s,
            None => self.fresh_state(x.dims[0]),
        };
        let ghost first = s;
        let (o, next) = self.attend(&p, s, update_state);
        let y = self.output(&o, &p.gate);
        assert(self.starts(*old(state), x.dims@[0] as int, first));
        assert(self.attends(p, first, update_state, o, next));
        *state = Some(next);
        y
    }
}

} // verus!
