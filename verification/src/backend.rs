//! The numeric kernels: calls into `burn` on its `ndarray` backend and into
//! `burn_gdn2`.
//!
//! IEEE 754 fixes the result of a sum, a difference, a product, a quotient and a square
//! root, up to the payload of a NaN: these results are named as functions of the
//! operands. Transcendental functions and reductions are rounded differently from one
//! machine, library version or build to another; of these the calls only fix which
//! operands a result was computed from, by a relation between operands and result.
use crate::float::{narrowed, negated, num, F64, INF_64, ONE_32, SIGN_64};
use crate::tensor::{laid_out, matrix_fits, nonempty, Tensor};
use burn::module::Param;
use burn::nn::Linear;
use burn::tensor::{activation, Bytes, DType, Distribution, Tensor as Array, TensorData};
use burn_ndarray::{NdArray, NdArrayDevice};
use vstd::prelude::*;

verus! {

/// The binary32 sum of two numbers.
pub uninterp spec fn f32_add(x: u32, y: u32) -> u32;

/// The binary32 difference of two numbers.
pub uninterp spec fn f32_sub(x: u32, y: u32) -> u32;

/// The binary32 product of two numbers.
pub uninterp spec fn f32_mul(x: u32, y: u32) -> u32;

/// The binary32 quotient of two numbers.
pub uninterp spec fn f32_div(x: u32, y: u32) -> u32;

/// The binary32 square root of a number.
pub uninterp spec fn f32_sqrt(x: u32) -> u32;

/// `r` is a value that burn's `exp` may give for `x`.
pub uninterp spec fn exp_gives(x: u32, r: u32) -> bool;

/// `r` is a value that burn's `log` may give for `x`.
pub uninterp spec fn ln_gives(x: u32, r: u32) -> bool;

/// `r` is a value that burn's `log` may give for the binary64 number `x`.
pub uninterp spec fn ln64_gives(x: u64, r: u64) -> bool;

/// `r` is a value that burn's `random` may draw from the normal distribution with this
/// mean and standard deviation.
pub uninterp spec fn normal_gives(mean: u64, std: u64, r: u32) -> bool;

/// `r` is a value that burn's `sum_dim` may give for the addends `s`.
pub uninterp spec fn sum_gives(s: Seq<u32>, r: u32) -> bool;

/// `r` is a value that burn's `mean_dim` may give for the values `s`.
pub uninterp spec fn mean_gives(s: Seq<u32>, r: u32) -> bool;

/// `r` is a value that burn's `matmul` may give for a row and a column.
pub uninterp spec fn matmul_gives(row: Seq<u32>, col: Seq<u32>, r: u32) -> bool;

/// `out` is an output that `chunk_wy_forward` of burn-gdn2 may give for inputs with
/// `dims` batches, heads, tokens, key channels and value channels.
pub uninterp spec fn chunk_gives(
    dims: Seq<int>,
    q: Seq<u32>,
    k: Seq<u32>,
    v: Seq<u32>,
    g: Seq<u32>,
    b: Seq<u32>,
    w: Seq<u32>,
    state: Seq<u32>,
    scale: int,
    chunk: int,
    out: Seq<u32>,
) -> bool;

/// `r` is a value that the logistic function, computed as `exp(-log(1 + exp(-x)))`, may
/// have at `x`.
pub open spec fn sigmoid_gives(x: u32, r: u32) -> bool {
    exists|e: u32, l: u32|
        {
            &&& #[trigger] exp_gives(negated(x), e)
            &&& #[trigger] ln_gives(f32_add(e, ONE_32), l)
            &&& exp_gives(negated(l), r)
        }
}

/// `r` is a value that softplus with the sharpness `beta`, `log(1 + exp(beta * x)) / beta`,
/// may have at `x`.
pub open spec fn softplus_gives(x: u32, beta: u64, r: u32) -> bool {
    let b = narrowed(beta);
    exists|e: u32, l: u32|
        {
            &&& #[trigger] exp_gives(f32_mul(x, b), e)
            &&& #[trigger] ln_gives(f32_add(e, ONE_32), l)
            &&& r == f32_div(l, b)
        }
}

/// `r` is a value that SiLU, `x * sigmoid(x)`, may have at `x`.
pub open spec fn silu_gives(x: u32, r: u32) -> bool {
    exists|s: u32| #[trigger] sigmoid_gives(x, s) && r == f32_mul(x, s)
}

/// The squares of a row.
pub open spec fn squares(row: Seq<u32>) -> Seq<u32> {
    row.map_values(|a: u32| f32_mul(a, a))
}

/// `r` is a vector that the L2 normalization of `s` may give: every element divided by
/// the root of the stabilized sum of squares.
pub open spec fn l2_gives(s: Seq<u32>, eps: u64, r: Seq<u32>) -> bool {
    &&& r.len() == s.len()
    &&& exists|n: u32|
        {
            &&& #[trigger] sum_gives(squares(s), n)
            &&& forall|c: int|
                0 <= c < r.len() ==> #[trigger] r[c] == f32_div(
                    s[c],
                    f32_sqrt(f32_add(n, narrowed(eps))),
                )
        }
}

/// `Tensor::add` of burn: element-wise addition.
#[verifier::external_body]
pub(crate) fn sum_of(a: &Vec<u32>, b: &Vec<u32>) -> (r: Vec<u32>)
    requires
        a@.len() == b@.len(),
    ensures
        r@.len() == a@.len(),
        forall|i: int| 0 <= i < r@.len() ==> num(#[trigger] r@[i]) == f32_add(num(a@[i]), num(b@[i])),
{
    let n = [a.len()];
    let x = TensorData::from_bytes(Bytes::from_elems(a.clone()), n, DType::F32);
    let y = TensorData::from_bytes(Bytes::from_elems(b.clone()), n, DType::F32);
    let x = Array::<NdArray, 1>::from_data(x, (&NdArrayDevice::Cpu, DType::F32));
    let y = Array::<NdArray, 1>::from_data(y, (&NdArrayDevice::Cpu, DType::F32));
    let z = x.add(y).into_data();
    TensorData::from_bytes(z.bytes, z.shape, DType::U32).into_vec().unwrap()
}

/// `Tensor::sub` of burn: element-wise subtraction.
#[verifier::external_body]
pub(crate) fn difference_of(a: &Vec<u32>, b: &Vec<u32>) -> (r: Vec<u32>)
    requires
        a@.len() == b@.len(),
    ensures
        r@.len() == a@.len(),
        forall|i: int| 0 <= i < r@.len() ==> num(#[trigger] r@[i]) == f32_sub(num(a@[i]), num(b@[i])),
{
    let n = [a.len()];
    let x = TensorData::from_bytes(Bytes::from_elems(a.clone()), n, DType::F32);
    let y = TensorData::from_bytes(Bytes::from_elems(b.clone()), n, DType::F32);
    let x = Array::<NdArray, 1>::from_data(x, (&NdArrayDevice::Cpu, DType::F32));
    let y = Array::<NdArray, 1>::from_data(y, (&NdArrayDevice::Cpu, DType::F32));
    let z = x.sub(y).into_data();
    TensorData::from_bytes(z.bytes, z.shape, DType::U32).into_vec().unwrap()
}

/// `Tensor::mul` of burn: element-wise multiplication.
#[verifier::external_body]
pub(crate) fn product_of(a: &Vec<u32>, b: &Vec<u32>) -> (r: Vec<u32>)
    requires
        a@.len() == b@.len(),
    ensures
        r@.len() == a@.len(),
        forall|i: int| 0 <= i < r@.len() ==> num(#[trigger] r@[i]) == f32_mul(num(a@[i]), num(b@[i])),
{
    let n = [a.len()];
    let x = TensorData::from_bytes(Bytes::from_elems(a.clone()), n, DType::F32);
    let y = TensorData::from_bytes(Bytes::from_elems(b.clone()), n, DType::F32);
    let x = Array::<NdArray, 1>::from_data(x, (&NdArrayDevice::Cpu, DType::F32));
    let y = Array::<NdArray, 1>::from_data(y, (&NdArrayDevice::Cpu, DType::F32));
    let z = x.mul(y).into_data();
    TensorData::from_bytes(z.bytes, z.shape, DType::U32).into_vec().unwrap()
}

/// `Tensor::div` of burn: element-wise division.
#[verifier::external_body]
pub(crate) fn quotient_of(a: &Vec<u32>, b: &Vec<u32>) -> (r: Vec<u32>)
    requires
        a@.len() == b@.len(),
    ensures
        r@.len() == a@.len(),
        forall|i: int| 0 <= i < r@.len() ==> num(#[trigger] r@[i]) == f32_div(num(a@[i]), num(b@[i])),
{
    let n = [a.len()];
    let x = TensorData::from_bytes(Bytes::from_elems(a.clone()), n, DType::F32);
    let y = TensorData::from_bytes(Bytes::from_elems(b.clone()), n, DType::F32);
    let x = Array::<NdArray, 1>::from_data(x, (&NdArrayDevice::Cpu, DType::F32));
    let y = Array::<NdArray, 1>::from_data(y, (&NdArrayDevice::Cpu, DType::F32));
    let z = x.div(y).into_data();
    TensorData::from_bytes(z.bytes, z.shape, DType::U32).into_vec().unwrap()
}

/// `Tensor::sqrt` of burn: element-wise square root.
#[verifier::external_body]
pub(crate) fn sqrt_of(a: &Vec<u32>) -> (r: Vec<u32>)
    ensures
        r@.len() == a@.len(),
        forall|i: int| 0 <= i < r@.len() ==> num(#[trigger] r@[i]) == f32_sqrt(num(a@[i])),
{
    let x = TensorData::from_bytes(Bytes::from_elems(a.clone()), [a.len()], DType::F32);
    let x = Array::<NdArray, 1>::from_data(x, (&NdArrayDevice::Cpu, DType::F32));
    let z = x.sqrt().into_data();
    TensorData::from_bytes(z.bytes, z.shape, DType::U32).into_vec().unwrap()
}

/// `Tensor::exp` of burn: element-wise exponential.
#[verifier::external_body]
pub(crate) fn exp_of(a: &Vec<u32>) -> (r: Vec<u32>)
    ensures
        r@.len() == a@.len(),
        forall|i: int| 0 <= i < r@.len() ==> exp_gives(num(a@[i]), num(#[trigger] r@[i])),
{
    let x = TensorData::from_bytes(Bytes::from_elems(a.clone()), [a.len()], DType::F32);
    let x = Array::<NdArray, 1>::from_data(x, (&NdArrayDevice::Cpu, DType::F32));
    let z = x.exp().into_data();
    TensorData::from_bytes(z.bytes, z.shape, DType::U32).into_vec().unwrap()
}

/// `Tensor::log` of burn: element-wise natural logarithm.
#[verifier::external_body]
pub(crate) fn ln_of(a: &Vec<u32>) -> (r: Vec<u32>)
    ensures
        r@.len() == a@.len(),
        forall|i: int| 0 <= i < r@.len() ==> ln_gives(num(a@[i]), num(#[trigger] r@[i])),
{
    let x = TensorData::from_bytes(Bytes::from_elems(a.clone()), [a.len()], DType::F32);
    let x = Array::<NdArray, 1>::from_data(x, (&NdArrayDevice::Cpu, DType::F32));
    let z = x.log().into_data();
    TensorData::from_bytes(z.bytes, z.shape, DType::U32).into_vec().unwrap()
}

/// `Tensor::log` of burn on one binary64 number.
#[verifier::external_body]
pub(crate) fn ln64(x: F64) -> (r: F64)
    ensures
        ln64_gives(x.bits, r.bits),
{
    let x = TensorData::from_bytes(Bytes::from_elems(vec![x.bits]), [1], DType::F64);
    let x = Array::<NdArray, 1>::from_data(x, (&NdArrayDevice::Cpu, DType::F64));
    let z = x.log().into_data();
    let z = TensorData::from_bytes(z.bytes, z.shape, DType::U64);
    let bits = z.iter().next().unwrap();
    F64 { bits }
}

/// `activation::sigmoid` of burn: element-wise logistic function, by `exp`, `log` and a
/// binary32 sum.
#[verifier::external_body]
pub(crate) fn sigmoid_of(a: &Vec<u32>) -> (r: Vec<u32>)
    ensures
        r@.len() == a@.len(),
        forall|i: int| 0 <= i < r@.len() ==> sigmoid_gives(num(a@[i]), num(#[trigger] r@[i])),
{
    let x = TensorData::from_bytes(Bytes::from_elems(a.clone()), [a.len()], DType::F32);
    let x = Array::<NdArray, 1>::from_data(x, (&NdArrayDevice::Cpu, DType::F32));
    let z = activation::sigmoid(x).into_data();
    TensorData::from_bytes(z.bytes, z.shape, DType::U32).into_vec().unwrap()
}

/// `activation::softplus` of burn: element-wise `log(1 + exp(beta * x)) / beta`, with a
/// binary32 operation for every step.
#[verifier::external_body]
pub(crate) fn softplus_of(a: &Vec<u32>, beta: F64) -> (r: Vec<u32>)
    ensures
        r@.len() == a@.len(),
        forall|i: int|
            0 <= i < r@.len() ==> softplus_gives(num(a@[i]), beta.bits, num(#[trigger] r@[i])),
{
    let x = TensorData::from_bytes(Bytes::from_elems(a.clone()), [a.len()], DType::F32);
    let x = Array::<NdArray, 1>::from_data(x, (&NdArrayDevice::Cpu, DType::F32));
    let b = TensorData::from_bytes(Bytes::from_elems(vec![beta.bits]), [1], DType::F64);
    let z = activation::softplus(x, b.iter().next().unwrap()).into_data();
    TensorData::from_bytes(z.bytes, z.shape, DType::U32).into_vec().unwrap()
}

/// `activation::silu` of burn: element-wise `x * sigmoid(x)`, a binary32 product with a
/// result of `sigmoid`.
#[verifier::external_body]
pub(crate) fn silu_of(a: &Vec<u32>) -> (r: Vec<u32>)
    ensures
        r@.len() == a@.len(),
        forall|i: int| 0 <= i < r@.len() ==> silu_gives(num(a@[i]), num(#[trigger] r@[i])),
{
    let x = TensorData::from_bytes(Bytes::from_elems(a.clone()), [a.len()], DType::F32);
    let x = Array::<NdArray, 1>::from_data(x, (&NdArrayDevice::Cpu, DType::F32));
    let z = activation::silu(x).into_data();
    TensorData::from_bytes(z.bytes, z.shape, DType::U32).into_vec().unwrap()
}

/// `Tensor::sum_dim` of burn over the third axis, which it keeps with extent one.
#[verifier::external_body]
pub(crate) fn sum_rows(a: &Tensor<4>) -> (r: Tensor<4>)
    requires
        a.wf(),
        laid_out(a.dims@),
    ensures
        r.shaped(a.dims@[0] as int, a.dims@[1] as int, 1, a.dims@[3] as int),
        forall|i: int, j: int, l: int|
            r.has(i, j, 0, l) ==> sum_gives(a.col(i, j, l), #[trigger] r.at(i, j, 0, l)),
{
    let x = TensorData::from_bytes(Bytes::from_elems(a.bits.clone()), a.dims, DType::F32);
    let x = Array::<NdArray, 4>::from_data(x, (&NdArrayDevice::Cpu, DType::F32));
    let z = x.sum_dim(2);
    let dims = z.dims();
    let z = z.into_data();
    let z = TensorData::from_bytes(z.bytes, z.shape, DType::U32);
    Tensor { dims, bits: z.into_vec().unwrap() }
}

/// `Tensor::mean_dim` of burn over the last axis, which it keeps with extent one.
#[verifier::external_body]
pub(crate) fn mean_channels(a: &Tensor<4>) -> (r: Tensor<4>)
    requires
        a.wf(),
        a.dims@[3] > 0,
        laid_out(a.dims@),
    ensures
        r.shaped(a.dims@[0] as int, a.dims@[1] as int, a.dims@[2] as int, 1),
        forall|i: int, j: int, k: int|
            r.has(i, j, k, 0) ==> mean_gives(a.row(i, j, k), #[trigger] r.at(i, j, k, 0)),
{
    let x = TensorData::from_bytes(Bytes::from_elems(a.bits.clone()), a.dims, DType::F32);
    let x = Array::<NdArray, 4>::from_data(x, (&NdArrayDevice::Cpu, DType::F32));
    let z = x.mean_dim(3);
    let dims = z.dims();
    let z = z.into_data();
    let z = TensorData::from_bytes(z.bytes, z.shape, DType::U32);
    Tensor { dims, bits: z.into_vec().unwrap() }
}

/// `Tensor::matmul` of burn: the products of the matrices in the last two axes.
#[verifier::external_body]
pub(crate) fn matmul(a: &Tensor<4>, b: &Tensor<4>) -> (r: Tensor<4>)
    requires
        a.wf(),
        b.wf(),
        a.dims@[0] == b.dims@[0],
        a.dims@[1] == b.dims@[1],
        a.dims@[3] == b.dims@[2],
        a.dims@[2] > 0,
        a.dims@[3] > 0,
        b.dims@[3] > 0,
        laid_out(a.dims@),
        laid_out(b.dims@),
        laid_out(seq![a.dims@[0], a.dims@[1], a.dims@[2], b.dims@[3]]),
    ensures
        r.shaped(a.dims@[0] as int, a.dims@[1] as int, a.dims@[2] as int, b.dims@[3] as int),
        forall|i: int, j: int, k: int, l: int|
            r.has(i, j, k, l) ==> matmul_gives(
                a.row(i, j, k),
                b.col(i, j, l),
                #[trigger] r.at(i, j, k, l),
            ),
{
    let x = TensorData::from_bytes(Bytes::from_elems(a.bits.clone()), a.dims, DType::F32);
    let y = TensorData::from_bytes(Bytes::from_elems(b.bits.clone()), b.dims, DType::F32);
    let x = Array::<NdArray, 4>::from_data(x, (&NdArrayDevice::Cpu, DType::F32));
    let y = Array::<NdArray, 4>::from_data(y, (&NdArrayDevice::Cpu, DType::F32));
    let z = x.matmul(y);
    let dims = z.dims();
    let z = z.into_data();
    let z = TensorData::from_bytes(z.bytes, z.shape, DType::U32);
    Tensor { dims, bits: z.into_vec().unwrap() }
}

/// `Linear::forward` of burn without a bias: the matrix product of the input rows and the
/// weights, by `matmul`.
#[verifier::external_body]
pub(crate) fn linear(x: &Tensor<3>, weight: &Tensor<2>) -> (r: Tensor<3>)
    requires
        x.wf(),
        weight.wf(),
        x.dims@[2] == weight.dims@[0],
        x.dims@[1] > 0,
        weight.dims@[0] > 0,
        weight.dims@[1] > 0,
        laid_out(x.dims@),
        laid_out(seq![x.dims@[0], x.dims@[1], weight.dims@[1]]),
    ensures
        r.shaped(x.dims@[0] as int, x.dims@[1] as int, weight.dims@[1] as int),
        forall|i: int, j: int, k: int|
            r.has(i, j, k) ==> matmul_gives(
                x.row(i, j),
                weight.col(k),
                #[trigger] r.at(i, j, k),
            ),
{
    let a = TensorData::from_bytes(Bytes::from_elems(x.bits.clone()), x.dims, DType::F32);
    let a = Array::<NdArray, 3>::from_data(a, (&NdArrayDevice::Cpu, DType::F32));
    let w = Bytes::from_elems(weight.bits.clone());
    let w = TensorData::from_bytes(w, weight.dims, DType::F32);
    let w = Array::<NdArray, 2>::from_data(w, (&NdArrayDevice::Cpu, DType::F32));
    let layer = Linear { weight: Param::from_tensor(w), bias: None };
    let z = layer.forward(a);
    let dims = z.dims();
    let z = z.into_data();
    let z = TensorData::from_bytes(z.bytes, z.shape, DType::U32);
    Tensor { dims, bits: z.into_vec().unwrap() }
}

/// `l2_normalize` of burn-gdn2: every row along the last axis is divided by the root of its
/// sum of squares, by `sum_dim`, plus `eps`.
#[verifier::external_body]
pub(crate) fn l2_normalize(x: &Tensor<3>, eps: F64) -> (r: Tensor<3>)
    requires
        x.wf(),
        laid_out(x.dims@),
    ensures
        r.wf(),
        r.dims@ == x.dims@,
        forall|i: int, j: int|
            0 <= i < x.dims@[0] && 0 <= j < x.dims@[1] ==> l2_gives(
                x.row(i, j),
                eps.bits,
                #[trigger] r.row(i, j),
            ),
{
    let a = TensorData::from_bytes(Bytes::from_elems(x.bits.clone()), x.dims, DType::F32);
    let a = Array::<NdArray, 3>::from_data(a, (&NdArrayDevice::Cpu, DType::F32));
    let e = TensorData::from_bytes(Bytes::from_elems(vec![eps.bits]), [1], DType::F64);
    let z = burn_gdn2::l2_normalize(a, e.iter().next().unwrap());
    let dims = z.dims();
    let z = z.into_data();
    let z = TensorData::from_bytes(z.bytes, z.shape, DType::U32);
    Tensor { dims, bits: z.into_vec().unwrap() }
}

/// Room for the largest arrays of a chunked pass: the decay and score blocks of one
/// chunk, padded to whole tiles of sixteen tokens, and the tokens of the sequence.
pub open spec fn chunk_fits(b: int, h: int, t: int, k: int, v: int, chunk: int) -> bool {
    let c = if chunk < t {
        chunk + 16
    } else {
        t + 16
    };
    &&& t + chunk <= usize::MAX
    &&& nonempty(b) * h * c * (c + k + v) <= isize::MAX
    &&& nonempty(b) * h * t * (k + v) <= isize::MAX
}

/// `chunk_wy_forward` of burn-gdn2: the chunked delta rule over a whole sequence. Claimed
/// are the shape of the output, which inputs it was computed from, and that the call
/// returns for these inputs. Its second result, the state after the sequence, is dropped.
///
/// The kernel makes arrays of its own in the default float type of the process, so the
/// inputs enter in that type, binary32 or binary64, and the output is rounded to binary32.
#[verifier::external_body]
pub(crate) fn chunk_forward(
    q: &Tensor<4>,
    k: &Tensor<4>,
    v: &Tensor<4>,
    g: &Tensor<4>,
    b: &Tensor<4>,
    w: &Tensor<4>,
    state: &Tensor<4>,
    scale: u32,
    chunk: usize,
) -> (r: Tensor<4>)
    requires
        q.wf() && k.wf() && v.wf() && g.wf() && b.wf() && w.wf() && state.wf(),
        k.dims@ == q.dims@ && g.dims@ == q.dims@ && b.dims@ == q.dims@,
        w.dims@ == v.dims@,
        v.dims@[0] == q.dims@[0] && v.dims@[1] == q.dims@[1] && v.dims@[2] == q.dims@[2],
        state.dims@ == seq![q.dims@[0], q.dims@[1], q.dims@[3], v.dims@[3]],
        q.dims@[1] > 0 && q.dims@[2] > 0 && q.dims@[3] > 0 && v.dims@[3] > 0,
        chunk > 0,
        laid_out(state.dims@),
        chunk_fits(
            q.dims@[0] as int,
            q.dims@[1] as int,
            q.dims@[2] as int,
            q.dims@[3] as int,
            v.dims@[3] as int,
            chunk as int,
        ),
    ensures
        r.wf(),
        r.dims@ == v.dims@,
        chunk_gives(
            seq![
                q.dims@[0] as int,
                q.dims@[1] as int,
                q.dims@[2] as int,
                q.dims@[3] as int,
                v.dims@[3] as int,
            ],
            q.elems(),
            k.elems(),
            v.elems(),
            g.elems(),
            b.elems(),
            w.elems(),
            state.elems(),
            scale as int,
            chunk as int,
            r.elems(),
        ),
{
    let up = |x: &Tensor<4>| {
        let x = TensorData::from_bytes(Bytes::from_elems(x.bits.clone()), x.dims, DType::F32);
        Array::<NdArray, 4>::from_data(x, &NdArrayDevice::Cpu)
    };
    let [q, k, v, g, b, w, s] = [q, k, v, g, b, w, state].map(up);
    let (z, _) = burn_gdn2::chunk_wy_forward(q, k, v, g, b, w, s, scale.into(), chunk);
    let dims = z.dims();
    let z = z.into_data().convert_dtype(DType::F32);
    let z = TensorData::from_bytes(z.bytes, z.shape, DType::U32);
    Tensor { dims, bits: z.into_vec().unwrap() }
}

/// `Tensor::random` of burn: a matrix of independent draws from a normal distribution.
/// Claimed are its extents and the distribution; which values come is left to chance.
#[verifier::external_body]
pub(crate) fn draw_normal(rows: usize, cols: usize, mean: F64, std: F64) -> (r: Tensor<2>)
    requires
        matrix_fits(rows as int, cols as int),
        std.bits % SIGN_64 < INF_64,
    ensures
        r.shaped(rows as int, cols as int),
        forall|i: int|
            0 <= i < r.bits@.len() ==> normal_gives(mean.bits, std.bits, num(#[trigger] r.bits@[i])),
{
    let m = TensorData::from_bytes(Bytes::from_elems(vec![mean.bits, std.bits]), [2], DType::F64);
    let mut m = m.iter();
    let mean = m.next().unwrap();
    let law = Distribution::Normal(mean, m.next().unwrap());
    let device = (&NdArrayDevice::Cpu, DType::F32);
    let z = Array::<NdArray, 2>::random([rows, cols], law, device).into_data();
    let z = TensorData::from_bytes(z.bytes, z.shape, DType::U32);
    Tensor { dims: [rows, cols], bits: z.into_vec().unwrap() }
}

} // verus!
