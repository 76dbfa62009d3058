use burn::tensor::{activation, Bytes, DType, Distribution, Tensor as Array, TensorData};
use burn_kda::config::{DecayFn, GateMode, KdaConfig, G_MIN};
use burn_kda::decay::KdaDecay;
use burn_kda::float::F64;
use burn_kda::layer::KdaModule;
use burn_kda::step::kda_step;
use burn_kda::tensor::Tensor;
use burn_ndarray::{NdArray, NdArrayDevice};

type B = NdArray;

fn dev() -> NdArrayDevice {
    NdArrayDevice::default()
}

fn double(x: f64) -> F64 {
    F64 { bits: x.to_bits() }
}

fn plain<const D: usize>(x: Array<B, D>) -> Tensor<D> {
    let dims = x.dims();
    let bits = x.into_data().to_vec::<f32>().unwrap().iter().map(|v| v.to_bits()).collect();
    Tensor { dims, bits }
}

fn array<const D: usize>(x: &Tensor<D>) -> Array<B, D> {
    let data = TensorData::from_bytes(Bytes::from_elems(x.bits.clone()), x.dims, DType::F32);
    Array::from_data(data, &dev())
}

fn values<const D: usize>(x: &Tensor<D>) -> Vec<f32> {
    x.bits.iter().map(|b| f32::from_bits(*b)).collect()
}

fn random<const D: usize>(dims: [usize; D]) -> Tensor<D> {
    plain(Array::<B, D>::random(dims, Distribution::Default, &dev()))
}

fn filled<const D: usize>(dims: [usize; D], v: f32) -> Tensor<D> {
    Tensor { dims, bits: vec![v.to_bits(); dims.iter().product()] }
}

fn max_difference(a: &[f32], b: &[f32]) -> f32 {
    assert_eq!(a.len(), b.len());
    a.iter().zip(b).fold(0.0f32, |m, (x, y)| m.max((x - y).abs()))
}

fn mean_square_difference(a: &[f32], b: &[f32]) -> f32 {
    assert_eq!(a.len(), b.len());
    let sum: f32 = a.iter().zip(b).map(|(x, y)| (x - y) * (x - y)).sum();
    sum / a.len() as f32
}

fn cfg(hidden: usize, heads: usize, head_dim: usize, decay_fn: DecayFn) -> KdaConfig {
    KdaConfig {
        hidden_size: hidden,
        num_heads: heads,
        head_dim,
        use_short_conv: false,
        decay_fn,
        ..Default::default()
    }
}

#[test]
fn kda_decay_bounds() {
    let g_min = F64 { bits: G_MIN };
    let dec = KdaDecay::new(32, 4, 16, 16, g_min, DecayFn::Sigmoid);
    let x = random([2, 8, 32]);
    let alpha = dec.forward(x.clone());
    assert_eq!(alpha.dims, [2, 8, 4, 16]);
    let vals = values(&alpha);
    let lo = f64::from_bits(G_MIN).exp() as f32;
    assert!(
        vals.iter().all(|&v| v >= lo - 1e-6 && v <= 1.0 + 1e-6),
        "alpha out of (e^g_min, 1): lo={lo}, sample {:?}",
        &vals[..8]
    );
    let dec2 = KdaDecay::new(32, 4, 16, 16, g_min, DecayFn::Softplus);
    let alpha2 = dec2.forward(x.clone());
    let vals2 = values(&alpha2);
    assert!(
        vals2.iter().all(|&v| v > 0.0 && v <= 1.0 + 1e-6),
        "softplus alpha must be in (0, 1), sample {:?}",
        &vals2[..8]
    );
}

#[test]
fn kda_decay_is_data_dependent() {
    let dec = KdaDecay::new(32, 2, 16, 16, F64 { bits: G_MIN }, DecayFn::Sigmoid);
    let a1 = dec.forward(filled([1, 4, 32], 1.0));
    let a2 = dec.forward(filled([1, 4, 32], -2.0));
    let max_d = max_difference(&values(&a1), &values(&a2));
    assert!(max_d > 1e-3, "decay must depend on the input (Eq 2)");
}

#[test]
fn kda_step_shapes() {
    let s = filled([2, 4, 32, 64], 0.0);
    let d = filled([4, 32], 0.95);
    let q = random([2, 4, 32]);
    let k = random([2, 4, 32]);
    let v = random([2, 4, 64]);
    let (ns, o) = kda_step(s, d, q, k, v, double(0.5));
    assert_eq!(ns.dims, [2, 4, 32, 64]);
    assert_eq!(o.dims, [2, 4, 64]);
}

#[test]
fn kda_module_forward() {
    let km = KdaModule::new(&cfg(64, 2, 32, DecayFn::Sigmoid), double(0.9));
    let x = random([1, 4, 64]);
    assert_eq!(km.forward_train(x).dims, [1, 4, 64]);
}

#[test]
fn chunk_matches_decode() {
    let km = KdaModule::new(&cfg(64, 2, 16, DecayFn::Sigmoid), double(0.9));
    let x = random([1, 17, 64]);
    let chunk_out = km.forward_train(x.clone());
    let mut state: Option<Tensor<4>> = None;
    let decode_out = km.forward(x, &mut state, true);
    let diff = mean_square_difference(&values(&chunk_out), &values(&decode_out));
    assert!(diff < 1e-4, "chunk vs decode mismatch mse {diff}");
}

#[test]
fn beta_stays_in_unit_interval() {
    let km = KdaModule::new(&cfg(32, 2, 16, DecayFn::Sigmoid), double(0.0));
    let x = random([1, 4, 32]);
    let beta = plain(activation::sigmoid(array(&km.beta_proj.forward(&x))));
    let vals = values(&beta);
    assert!(
        vals.iter().all(|&v| v > 0.0 && v < 1.0),
        "beta must be in (0,1), sample {:?}",
        &vals[..8]
    );
    let projected = values(&km.project_for_test(x).4);
    assert!(projected.iter().all(|&v| v > 0.0 && v < 1.0));
}

#[test]
fn low_rank_gate_matches_full_rank_shapes() {
    let km_low = KdaModule::new(
        &KdaConfig { gate: GateMode::LowRank, ..cfg(64, 2, 32, DecayFn::Sigmoid) },
        double(0.9),
    );
    let km_full = KdaModule::new(
        &KdaConfig { gate: GateMode::FullRank, ..cfg(64, 2, 32, DecayFn::Sigmoid) },
        double(0.9),
    );
    let x = random([1, 4, 64]);
    assert_eq!(km_low.forward_train(x.clone()).dims, km_full.forward_train(x).dims);
}

#[test]
fn softplus_chunk_matches_decode() {
    let km = KdaModule::new(&cfg(64, 2, 16, DecayFn::Softplus), double(0.0));
    let x = random([1, 17, 64]);
    let chunk_out = km.forward_train(x.clone());
    let mut state: Option<Tensor<4>> = None;
    let decode_out = km.forward(x, &mut state, true);
    let diff = mean_square_difference(&values(&chunk_out), &values(&decode_out));
    assert!(diff < 1e-4, "softplus chunk vs decode mismatch mse {diff}");
}

#[test]
fn beta_is_data_dependent() {
    let km = KdaModule::new(&cfg(32, 2, 16, DecayFn::Sigmoid), double(0.0));
    let b1 = plain(activation::sigmoid(array(&km.beta_proj.forward(&filled([1, 4, 32], 1.0)))));
    let b2 = plain(activation::sigmoid(array(&km.beta_proj.forward(&filled([1, 4, 32], -3.0)))));
    let max_d = max_difference(&values(&b1), &values(&b2));
    assert!(max_d > 1e-3, "beta must depend on x (Eq 2), max diff {max_d}");
}
