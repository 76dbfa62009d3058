use burn_kda::config::KdaConfig;
use burn_kda::float::F64;
use burn_kda::fused::{kda_fused_chunk, BackendKind, FUSED_MAX_CHUNK};
use burn_kda::layer::KdaModule;
use burn_kda::tensor::Tensor;

fn filled<const D: usize>(dims: [usize; D], v: f32) -> Tensor<D> {
    Tensor { dims, bits: vec![v.to_bits(); dims.iter().product()] }
}

fn launch(kind: BackendKind, chunk_size: usize) -> bool {
    let call = kda_fused_chunk(
        kind,
        filled([1, 1, 2, 3], 1.0),
        filled([1, 1, 2, 3], 2.0),
        filled([1, 1, 2, 4], 3.0),
        filled([1, 1, 2, 3], 4.0),
        filled([1, 1, 2, 3], 5.0),
        filled([1, 1, 2, 4], 6.0),
        filled([1, 1, 3, 4], 7.0),
        chunk_size,
    );
    match call {
        Some(c) => {
            let vals: Vec<f32> = [&c.q, &c.k, &c.v, &c.g, &c.b, &c.w, &c.state]
                .iter()
                .map(|t| f32::from_bits(t.bits[0]))
                .collect();
            assert_eq!(vals, [1.0, 2.0, 3.0, 4.0, 5.0, 6.0, 7.0]);
            assert_eq!(c.scale, 1);
            assert_eq!(c.chunk_size, chunk_size);
            true
        }
        None => false,
    }
}

#[test]
fn fused_path_is_for_bare_cuda_and_stable_chunks() {
    assert_eq!(FUSED_MAX_CHUNK, 16);
    assert!(launch(BackendKind::CudaBare, 1));
    assert!(launch(BackendKind::CudaBare, 16));
    assert!(!launch(BackendKind::CudaBare, 17));
    assert!(!launch(BackendKind::CudaBare, 64));
    assert!(!launch(BackendKind::Other, 16));
}

fn layer(chunk_size: usize) -> KdaModule {
    let cfg = KdaConfig {
        hidden_size: 8,
        num_heads: 2,
        head_dim: 4,
        chunk_size,
        ..Default::default()
    };
    KdaModule::new(&cfg, F64 { bits: 0 })
}

#[test]
fn launch_of_a_training_pass() {
    let km = layer(16);
    let p = km.project(&filled([1, 3, 8], 0.5));
    let call = km.fused_call(BackendKind::CudaBare, &p).unwrap();
    assert_eq!(call.q.bits, p.q.bits);
    assert_eq!(call.k.bits, p.k.bits);
    assert_eq!(call.v.bits, p.v.bits);
    assert_eq!(call.g.bits, p.g.bits);
    assert_eq!(call.b.bits, p.beta_k.bits);
    assert_eq!(call.w.bits, p.beta_v.bits);
    assert_eq!(call.state.dims, [1, 2, 4, 4]);
    assert_eq!(call.state.bits, vec![0; 32]);
    assert_eq!(call.chunk_size, 16);
    assert!(km.fused_call(BackendKind::Other, &p).is_none());
    assert!(layer(17).fused_call(BackendKind::CudaBare, &p).is_none());
}

#[test]
fn kernel_outputs_are_used_where_there_are_any() {
    let km = layer(16);
    let x = filled([1, 3, 8], 0.5);
    let p = km.project(&x);
    let fallback = km.finish_train(&p, None);
    assert_eq!(fallback.bits, km.forward_train(x).bits);
    let o = km.chunk(&p);
    let same = km.finish_train(&p, Some((o.clone(), filled([1, 2, 4, 4], 0.0))));
    assert_eq!(same.bits, fallback.bits);
    let zeros = filled([1, 2, 3, 4], 0.0);
    let y = km.finish_train(&p, Some((zeros, filled([1, 2, 4, 4], 0.0))));
    assert_eq!(y.dims, [1, 3, 8]);
    assert!(y.bits.iter().all(|b| f32::from_bits(*b) == 0.0));
}

#[test]
fn output_of_known_heads() {
    let cfg = KdaConfig {
        hidden_size: 1,
        num_heads: 1,
        head_dim: 2,
        norm_eps: F64 { bits: 0.5f64.to_bits() },
        ..Default::default()
    };
    let mut km = KdaModule::new(&cfg, F64 { bits: 0 });
    km.o_norm_w.bits = vec![2.0f32.to_bits(), 4.0f32.to_bits()];
    km.o_proj.weight.bits = vec![1.0f32.to_bits(), (-1.0f32).to_bits()];
    let o = Tensor { dims: [1, 1, 1, 2], bits: vec![1.0f32.to_bits(), 6.0f32.to_bits()] };
    let gate = Tensor { dims: [1, 1, 1, 2], bits: vec![0.5f32.to_bits(), 0.25f32.to_bits()] };
    let y = km.output(&o, &gate);
    // mean square 18.5, root of 19 with the stabilizer
    let root = 19.0f32.sqrt();
    let expected = 1.0 / root * 0.5 * 2.0 - 6.0 / root * 0.25 * 4.0;
    assert!((f32::from_bits(y.bits[0]) - expected).abs() < 1e-6);
}
