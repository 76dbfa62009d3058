//! The library in a process whose default float type is binary64.
use burn::tensor::{DType, Tensor as Array};
use burn_kda::config::{DecayFn, KdaConfig};
use burn_kda::decay::KdaDecay;
use burn_kda::float::F64;
use burn_kda::layer::KdaModule;
use burn_kda::step::kda_step;
use burn_kda::tensor::Tensor;
use burn_ndarray::{NdArray, NdArrayDevice};

/// Fixes the default float type of the process.
fn widen() {
    let first = Array::<NdArray<f64>, 1>::zeros([1], &NdArrayDevice::Cpu);
    assert_eq!(first.dtype(), DType::F64);
    let later = Array::<NdArray, 1>::zeros([1], &NdArrayDevice::Cpu);
    assert_eq!(later.dtype(), DType::F64);
}

fn double(x: f64) -> F64 {
    F64 { bits: x.to_bits() }
}

fn wave<const D: usize>(dims: [usize; D]) -> Tensor<D> {
    let n: usize = dims.iter().product();
    Tensor { dims, bits: (0..n).map(|i| ((i as f32 * 0.7).sin() * 1.5).to_bits()).collect() }
}

fn values<const D: usize>(x: &Tensor<D>) -> Vec<f64> {
    x.bits.iter().map(|b| f32::from_bits(*b) as f64).collect()
}

#[test]
fn fresh_weights_under_a_wide_default() {
    widen();
    let km = KdaModule::new(&KdaConfig::default(), double(0.9));
    assert_eq!(km.q_proj.weight.dims, [128, 128]);
    for w in [&km.q_proj.weight, &km.decay.w_down.weight, km.v_conv_w.as_ref().unwrap()] {
        assert_eq!(w.bits.len(), w.dims[0] * w.dims[1]);
        let vals = values(w);
        let n = vals.len() as f64;
        let mean = vals.iter().sum::<f64>() / n;
        let std = (vals.iter().map(|v| (v - mean) * (v - mean)).sum::<f64>() / n).sqrt();
        assert!(mean.abs() < 0.005 && (std - 0.02).abs() < 0.004, "{mean} {std}");
    }
    let g_min = f64::from_bits(km.decay.g_min.bits);
    assert!((g_min - 0.9f64.ln()).abs() < 1e-12);
}

#[test]
fn passes_under_a_wide_default() {
    widen();
    for use_short_conv in [false, true] {
        for decay_fn in [DecayFn::Sigmoid, DecayFn::Softplus] {
            let cfg = KdaConfig {
                hidden_size: 12,
                num_heads: 2,
                head_dim: 4,
                num_v_heads: Some(4),
                use_short_conv,
                decay_fn,
                ..Default::default()
            };
            let mut km = KdaModule::new(&cfg, double(0.0));
            for w in [&mut km.q_proj, &mut km.k_proj, &mut km.v_proj, &mut km.o_proj] {
                w.weight = wave(w.weight.dims);
            }
            let x = wave([2, 19, 12]);
            let trained = km.forward_train(x.clone());
            let mut state = None;
            let decoded = km.forward(x.clone(), &mut state, true);
            assert_eq!(trained.dims, [2, 19, 12]);
            assert_eq!(decoded.dims, [2, 19, 12]);
            for (a, b) in values(&trained).iter().zip(values(&decoded)) {
                assert!((a - b).abs() < 2e-3, "{a} {b}");
            }
            assert_eq!(km.forward(x, &mut state, false).dims, [2, 19, 12]);
        }
    }
}

#[test]
fn a_step_under_a_wide_default() {
    widen();
    let one = |dims: [usize; 3], v: [f32; 2]| Tensor {
        dims,
        bits: v.iter().map(|v| v.to_bits()).collect(),
    };
    let state = Tensor { dims: [1, 1, 2, 2], bits: [3.0f32, -1.0, 2.0, 5.0].map(f32::to_bits).to_vec() };
    let decay = Tensor { dims: [1, 2], bits: vec![1.0f32.to_bits(); 2] };
    let k = one([1, 1, 2], [1.0, 0.0]);
    let (next, out) =
        kda_step(state, decay, k.clone(), k, one([1, 1, 2], [7.0, -4.0]), double(1.0));
    assert_eq!(values(&next), [7.0, -4.0, 2.0, 5.0]);
    assert_eq!(values(&out), [7.0, -4.0]);
    let d = KdaDecay::new(3, 2, 2, 2, double(-5.0), DecayFn::Sigmoid);
    let alpha = values(&d.forward(wave([1, 2, 3])));
    assert!(alpha.iter().all(|a| *a > (-5.0f64).exp() && *a < 1.0));
}
