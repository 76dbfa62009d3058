//! One exact step of the recurrence.
use crate::backend::{f32_mul, matmul, matmul_gives};
use crate::float::{narrow, narrowed, num, F64};
use crate::ops::{
    add4, as_cols, as_rows, cols_to_rows, constant, from_rows, mul4, over_keys, over_values, sub4, transpose,
};
use crate::recurrence::{corrected, f32_arith};
use crate::tensor::{
    build4, elem4, laid_out, lemma_numel3, lemma_numel4, lemma_room4, nonempty, Tensor,
};
use vstd::prelude::*;

verus! {

/// Column `j` of a head's state after decay.
pub open spec fn decayed_column(
    state: Tensor<4>,
    decay: Tensor<2>,
    b: int,
    h: int,
    j: int,
) -> Seq<u32> {
    Seq::new(
        state.dims@[2] as nat,
        |i: int| f32_mul(state.at(b, h, i, j), decay.at(h, i)),
    )
}

/// Value channel `j` of one head is written: the decayed column recalls a value for the
/// key, and every entry is corrected by it.
pub open spec fn column_writes(
    state: Tensor<4>,
    decay: Tensor<2>,
    k: Tensor<3>,
    v: Tensor<3>,
    beta: u32,
    next: Tensor<4>,
    b: int,
    h: int,
    j: int,
) -> bool {
    let column = decayed_column(state, decay, b, h, j);
    exists|r: u32|
        {
            &&& #[trigger] matmul_gives(column, k.row(b, h), r)
            &&& forall|i: int|
                0 <= i < state.dims@[2] ==> #[trigger] next.at(b, h, i, j) == corrected(
                    f32_arith(),
                    column[i],
                    k.at(b, h, i),
                    v.at(b, h, j),
                    beta,
                    r,
                )
        }
}

/// Value channel `j` of one head takes a step: it is written, and the query reads the new
/// column.
pub open spec fn column_steps(
    state: Tensor<4>,
    decay: Tensor<2>,
    q: Tensor<3>,
    k: Tensor<3>,
    v: Tensor<3>,
    beta: u32,
    next: Tensor<4>,
    out: Tensor<3>,
    b: int,
    h: int,
    j: int,
) -> bool {
    &&& column_writes(state, decay, k, v, beta, next, b, h, j)
    &&& matmul_gives(q.row(b, h), next.col(b, h, j), out.at(b, h, j))
}

/// `next` and `out` are a state and an output that one step with the write strength `beta`
/// may give.
pub open spec fn steps(
    state: Tensor<4>,
    decay: Tensor<2>,
    q: Tensor<3>,
    k: Tensor<3>,
    v: Tensor<3>,
    beta: F64,
    next: Tensor<4>,
    out: Tensor<3>,
) -> bool {
    &&& next.wf()
    &&& next.dims@ == state.dims@
    &&& out.wf()
    &&& out.dims@ == v.dims@
    &&& forall|b: int, h: int, j: int|
        out.has(b, h, j) ==> #[trigger] column_steps(
            state,
            decay,
            q,
            k,
            v,
            narrowed(beta.bits),
            next,
            out,
            b,
            h,
            j,
        )
}

/// A decay per head and key channel, over all batches and value channels.
fn spread_decay(decay: &Tensor<2>, b: usize, dv: usize) -> (r: Tensor<4>)
    requires
        decay.wf(),
        b * decay.dims@[0] * decay.dims@[1] * dv <= usize::MAX,
    ensures
        r.shaped(b as int, decay.dims@[0] as int, decay.dims@[1] as int, dv as int),
        forall|i: int, h: int, k: int, l: int|
            r.has(i, h, k, l) ==> #[trigger] r.at(i, h, k, l) == decay.at(h, k),
{
    let dims = [b, decay.dims[0], decay.dims[1], dv];
    proof {
        lemma_numel4(dims@);
    }
    let f = |i: usize, h: usize, k: usize, l: usize| -> (v: u32)
        requires
            decay.wf(),
            h < decay.dims@[0],
            k < decay.dims@[1],
        ensures
            num(v) == decay.at(h as int, k as int),
    {
        decay.get(h, k)
    };
    proof {
        reveal(elem4);
    }
    build4(dims, f)
}

/// Where a state can be laid out, so can the arrays of a step.
proof fn lemma_step_layouts(d: Seq<usize>)
    requires
        d.len() == 4,
        d[2] > 0,
        d[3] > 0,
        laid_out(d),
    ensures
        laid_out(seq![d[0], d[1], d[3], d[2]]),
        laid_out(seq![d[0], d[1], d[2], 1]),
        laid_out(seq![d[0], d[1], 1, d[2]]),
        laid_out(seq![d[0], d[1], d[3], 1]),
        laid_out(seq![d[0], d[1], 1, d[3]]),
{
    lemma_room4(d);
    lemma_room4(seq![d[0], d[1], d[3], d[2]]);
    lemma_room4(seq![d[0], d[1], d[2], 1]);
    lemma_room4(seq![d[0], d[1], 1, d[2]]);
    lemma_room4(seq![d[0], d[1], d[3], 1]);
    lemma_room4(seq![d[0], d[1], 1, d[3]]);
    let n = nonempty(d[0] as int) * nonempty(d[1] as int);
    let k = d[2] as int;
    let v = d[3] as int;
    assert(n >= 1) by (nonlinear_arith)
        requires
            n == nonempty(d[0] as int) * nonempty(d[1] as int),
            nonempty(d[0] as int) >= 1,
            nonempty(d[1] as int) >= 1,
    ;
    assert(n * v * k == n * k * v && n * k * 1 <= n * k * v && n * 1 * k <= n * k * v && n * v * 1
        <= n * k * v && n * 1 * v <= n * k * v) by (nonlinear_arith)
        requires
            n >= 1,
            k >= 1,
            v >= 1,
    ;
}

/// What every column of a state recalls for the keys.
fn recall(state: &Tensor<4>, k: &Tensor<3>) -> (r: Tensor<4>)
    requires
        state.wf(),
        k.shaped(state.dims@[0] as int, state.dims@[1] as int, state.dims@[2] as int),
        state.dims@[2] > 0,
        state.dims@[3] > 0,
        laid_out(state.dims@),
    ensures
        r.shaped(state.dims@[0] as int, state.dims@[1] as int, 1, state.dims@[3] as int),
        forall|b: int, h: int, j: int|
            0 <= b < state.dims@[0] && 0 <= h < state.dims@[1] && 0 <= j < state.dims@[3]
                ==> matmul_gives(state.col(b, h, j), k.row(b, h), #[trigger] r.at(b, h, 0, j)),
{
    let turned = transpose(state);
    let k_col = as_cols(k.clone());
    proof {
        lemma_step_layouts(state.dims@);
        let d = state.dims@;
        assert(turned.dims@ =~= seq![d[0], d[1], d[3], d[2]]);
        assert(k_col.dims@ =~= seq![d[0], d[1], d[2], 1]);
    }
    let r = matmul(&turned, &k_col);
    proof {
        assert forall|b: int, h: int, j: int|
            0 <= b < state.dims@[0] && 0 <= h < state.dims@[1] && 0 <= j < state.dims@[3] implies
            matmul_gives(state.col(b, h, j), k.row(b, h), #[trigger] r.at(b, h, j, 0)) by {
            assert(turned.row(b, h, j) =~= state.col(b, h, j));
            assert(k_col.col(b, h, 0) =~= k.row(b, h));
        }
    }
    cols_to_rows(r)
}

/// Every column of a state read by the queries.
fn read(q: &Tensor<3>, state: &Tensor<4>) -> (r: Tensor<3>)
    requires
        state.wf(),
        q.shaped(state.dims@[0] as int, state.dims@[1] as int, state.dims@[2] as int),
        state.dims@[2] > 0,
        state.dims@[3] > 0,
        laid_out(state.dims@),
    ensures
        r.shaped(state.dims@[0] as int, state.dims@[1] as int, state.dims@[3] as int),
        forall|b: int, h: int, j: int|
            r.has(b, h, j) ==> matmul_gives(
                q.row(b, h),
                state.col(b, h, j),
                #[trigger] r.at(b, h, j),
            ),
{
    let q_row = as_rows(q.clone());
    proof {
        lemma_step_layouts(state.dims@);
        let d = state.dims@;
        assert(q_row.dims@ =~= seq![d[0], d[1], 1, d[2]]);
    }
    let r = matmul(&q_row, state);
    proof {
        assert forall|b: int, h: int, j: int|
            0 <= b < state.dims@[0] && 0 <= h < state.dims@[1] && 0 <= j < state.dims@[3] implies
            matmul_gives(q.row(b, h), state.col(b, h, j), #[trigger] r.at(b, h, 0, j)) by {
            assert(q_row.row(b, h, 0) =~= q.row(b, h));
        }
    }
    from_rows(r)
}

/// The delta rule on a decayed state, given what it recalls for the keys.
fn correct(
    state: &Tensor<4>,
    k: &Tensor<3>,
    v: &Tensor<3>,
    beta: u32,
    recalled: &Tensor<4>,
) -> (r: Tensor<4>)
    requires
        state.wf(),
        k.shaped(state.dims@[0] as int, state.dims@[1] as int, state.dims@[2] as int),
        v.shaped(state.dims@[0] as int, state.dims@[1] as int, state.dims@[3] as int),
        recalled.shaped(state.dims@[0] as int, state.dims@[1] as int, 1, state.dims@[3] as int),
    ensures
        r.wf(),
        r.dims@ == state.dims@,
        forall|b: int, h: int, i: int, j: int|
            r.has(b, h, i, j) ==> #[trigger] r.at(b, h, i, j) == corrected(
                f32_arith(),
                state.at(b, h, i, j),
                k.at(b, h, i),
                v.at(b, h, j),
                num(beta),
                recalled.at(b, h, 0, j),
            ),
{
    proof {
        assert(state.bits.len() <= usize::MAX);
        lemma_numel4(state.dims@);
    }
    let v_row = as_rows(v.clone());
    assert(v_row.bits.len() <= usize::MAX);
    let beta_row = constant(v_row.dims, beta);
    let delta = mul4(&sub4(&v_row, recalled), &beta_row);
    let k_row = as_rows(k.clone());
    let k_all = over_values(&k_row, 0, state.dims[3]);
    let delta_all = over_keys(&delta, 0, state.dims[2]);
    add4(state, &mul4(&k_all, &delta_all))
}

/// One KDA step: decay, erase, write, read.
///
/// With `state` `[B, H, DK, DV]`, `decay` `[H, DK]`, `q` and `k` `[B, H, DK]` and `v`
/// `[B, H, DV]`; returns the next state and the output `[B, H, DV]`.
pub fn kda_step(
    state: Tensor<4>,
    decay: Tensor<2>,
    q: Tensor<3>,
    k: Tensor<3>,
    v: Tensor<3>,
    beta: F64,
) -> (r: (Tensor<4>, Tensor<3>))
    requires
        state.wf(),
        decay.shaped(state.dims@[1] as int, state.dims@[2] as int),
        q.shaped(state.dims@[0] as int, state.dims@[1] as int, state.dims@[2] as int),
        k.shaped(state.dims@[0] as int, state.dims@[1] as int, state.dims@[2] as int),
        v.shaped(state.dims@[0] as int, state.dims@[1] as int, state.dims@[3] as int),
        state.dims@[2] > 0,
        state.dims@[3] > 0,
        laid_out(state.dims@),
    ensures
        r.0.wf(),
        r.0.dims@ == state.dims@,
        r.1.wf(),
        r.1.dims@ == v.dims@,
        forall|b: int, h: int, j: int|
            r.1.has(b, h, j) ==> #[trigger] column_steps(
                state,
                decay,
                q,
                k,
                v,
                narrowed(beta.bits),
                r.0,
                r.1,
                b,
                h,
                j,
            ),
        steps(state, decay, q, k, v, beta, r.0, r.1),
{
    proof {
        assert(state.bits.len() <= usize::MAX);
        assert(v.bits.len() <= usize::MAX);
        lemma_numel4(state.dims@);
        lemma_numel3(v.dims@);
    }
    let alpha = spread_decay(&decay, state.dims[0], state.dims[3]);
    let decayed = mul4(&state, &alpha);
    let recalled = recall(&decayed, &k);
    let next = correct(&decayed, &k, &v, narrow(beta).bits, &recalled);
    let out = read(&q, &next);
    proof {
        assert forall|b: int, h: int, j: int| out.has(b, h, j) implies #[trigger] column_steps(
            state,
            decay,
            q,
            k,
            v,
            narrowed(beta.bits),
            next,
            out,
            b,
            h,
            j,
        ) by {
            let column = decayed_column(state, decay, b, h, j);
            let r = recalled.at(b, h, 0, j);
            assert(decayed.col(b, h, j) =~= column);
            assert(matmul_gives(column, k.row(b, h), r));
            assert(matmul_gives(q.row(b, h), next.col(b, h, j), out.at(b, h, j)));
            assert forall|i: int| 0 <= i < state.dims@[2] implies #[trigger] next.at(b, h, i, j)
                == corrected(
                f32_arith(),
                column[i],
                k.at(b, h, i),
                v.at(b, h, j),
                narrowed(beta.bits),
                r,
            ) by {
                assert(decayed.at(b, h, i, j) == column[i]);
            }
        }
    }
    assert(next.dims@ =~= state.dims@);
    assert(out.dims@ =~= v.dims@);
    (next, out)
}

} // verus!
