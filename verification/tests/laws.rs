use burn_kda::config::{DecayFn, KdaConfig};
use burn_kda::decay::KdaDecay;
use burn_kda::float::F64;
use burn_kda::layer::KdaModule;
use burn_kda::linear::Linear;
use burn_kda::step::kda_step;
use burn_kda::tensor::Tensor;

fn double(x: f64) -> F64 {
    F64 { bits: x.to_bits() }
}

fn wave<const D: usize>(dims: [usize; D], step: f32) -> Tensor<D> {
    let n: usize = dims.iter().product();
    Tensor { dims, bits: (0..n).map(|i| (i as f32 * step + 0.3).sin().to_bits()).collect() }
}

fn tensor<const D: usize>(dims: [usize; D], vals: &[f32]) -> Tensor<D> {
    Tensor { dims, bits: vals.iter().map(|v| v.to_bits()).collect() }
}

fn values<const D: usize>(x: &Tensor<D>) -> Vec<f32> {
    x.bits.iter().map(|b| f32::from_bits(*b)).collect()
}

fn mapped<const D: usize>(x: &Tensor<D>, f: impl Fn(f32) -> f32) -> Tensor<D> {
    Tensor { dims: x.dims, bits: x.bits.iter().map(|b| f(f32::from_bits(*b)).to_bits()).collect() }
}

fn assert_near(a: &[f32], b: &[f32], tolerance: f32) {
    assert_eq!(a.len(), b.len());
    for (x, y) in a.iter().zip(b) {
        assert!((x - y).abs() < tolerance, "{x} is not {y}");
    }
}

fn layer(heads: usize, chunk_size: usize, use_short_conv: bool) -> KdaModule {
    let cfg = KdaConfig {
        hidden_size: 6,
        num_heads: heads,
        head_dim: 4,
        chunk_size,
        use_short_conv,
        ..Default::default()
    };
    let mut km = KdaModule::new(&cfg, double(0.0));
    let maps = [
        &mut km.q_proj,
        &mut km.k_proj,
        &mut km.v_proj,
        &mut km.beta_proj,
        &mut km.o_proj,
        &mut km.decay.w_up,
        &mut km.decay.w_down,
    ];
    for (n, w) in maps.into_iter().enumerate() {
        w.weight = wave(w.weight.dims, 0.7 + n as f32 * 0.1);
    }
    km
}

fn decay(decay_fn: DecayFn, g_min: f64, a_log: [f32; 2]) -> KdaDecay {
    KdaDecay {
        w_up: Linear { weight: tensor([1, 1], &[1.0]) },
        w_down: Linear { weight: tensor([1, 4], &[1.0, 0.5, 2.0, 1.5]) },
        b_alpha: tensor([4], &[0.0, 0.1, -0.2, 0.3]),
        a_log: tensor([2, 1], &a_log),
        g_min: double(g_min),
        decay_fn,
    }
}

#[test]
fn larger_logits_forget_more() {
    for decay_fn in [DecayFn::Sigmoid, DecayFn::Softplus] {
        let d = decay(decay_fn, -5.0, [0.2, -0.4]);
        let low = values(&d.forward(tensor([1, 1, 1], &[-0.5])));
        let high = values(&d.forward(tensor([1, 1, 1], &[0.75])));
        for (l, h) in low.iter().zip(&high) {
            assert!(0.0 < *h && h < l && *l < 1.0);
        }
    }
}

#[test]
fn larger_logits_write_more() {
    let mut km = layer(2, 16, false);
    km.beta_proj.weight = tensor([6, 2], &[1.0, -1.0, 0.0, 0.0, 0.0, 0.0, 0.0, 0.0, 0.0, 0.0, 0.0, 0.0]);
    let at = |v: f32| {
        let mut x = vec![0.25; 6];
        x[0] = v;
        values(&km.project_for_test(tensor([1, 1, 6], &x)).4)
    };
    let (low, high) = (at(-1.0), at(2.0));
    assert!((0..4).all(|c| 0.0 < low[c] && low[c] < high[c] && high[c] < 1.0));
    assert!((4..8).all(|c| low[c] > high[c]));
    assert!((high[0] - 1.0 / (1.0 + (-2.0f32).exp())).abs() < 1e-6);
}

#[test]
fn softplus_ignores_the_floor() {
    let x = wave([2, 3, 1], 0.9);
    let a = decay(DecayFn::Softplus, -5.0, [0.2, -0.4]).forward(x.clone());
    let b = decay(DecayFn::Softplus, -0.1, [0.2, -0.4]).forward(x.clone());
    assert_eq!(a.bits, b.bits);
    let c = decay(DecayFn::Sigmoid, -5.0, [0.2, -0.4]).forward(x.clone());
    let d = decay(DecayFn::Sigmoid, -0.1, [0.2, -0.4]).forward(x);
    assert_ne!(c.bits, d.bits);
}

#[test]
fn scales_are_per_head() {
    let x = wave([2, 3, 1], 0.9);
    let a = decay(DecayFn::Sigmoid, -5.0, [0.2, -0.4]).forward(x.clone());
    let b = decay(DecayFn::Sigmoid, -5.0, [0.2, 0.9]).forward(x);
    for n in 0..6 {
        assert_eq!(a.bits[n * 4..n * 4 + 2], b.bits[n * 4..n * 4 + 2]);
        assert_ne!(a.bits[n * 4 + 2..n * 4 + 4], b.bits[n * 4 + 2..n * 4 + 4]);
    }
}

#[test]
fn outputs_scale_with_the_gate_and_turn_with_the_heads() {
    let km = layer(2, 16, false);
    let o = wave([1, 2, 3, 4], 1.1);
    let gate = wave([1, 2, 3, 4], 0.4);
    let y = values(&km.output(&o, &gate));
    let scaled = values(&km.output(&o, &mapped(&gate, |v| 3.0 * v)));
    assert_near(&scaled, &y.iter().map(|v| 3.0 * v).collect::<Vec<f32>>(), 1e-4);
    let turned = values(&km.output(&mapped(&o, |v| -v), &gate));
    assert_near(&turned, &y.iter().map(|v| -v).collect::<Vec<f32>>(), 1e-5);
    let zero = values(&km.output(&mapped(&o, |_| 0.0), &gate));
    assert!(zero.iter().all(|v| *v == 0.0));
}

/// A step on dyadic fractions, where the arithmetic is exact.
fn step(s: &[f32], v: &[f32], q: &[f32]) -> (Vec<f32>, Vec<f32>) {
    let (next, out) = kda_step(
        tensor([1, 1, 2, 2], s),
        tensor([1, 2], &[0.5, 0.25]),
        tensor([1, 1, 2], q),
        tensor([1, 1, 2], &[0.5, 1.0]),
        tensor([1, 1, 2], v),
        double(0.5),
    );
    (values(&next), values(&out))
}

#[test]
fn steps_are_linear() {
    let (s1, s2) = ([1.0, 2.0, -4.0, 0.5], [0.25, -1.0, 2.0, 8.0]);
    let (v1, v2) = ([1.0, -2.0], [0.5, 4.0]);
    let q = [1.0, -2.0];
    let mix = |a: &[f32], b: &[f32]| -> Vec<f32> {
        a.iter().zip(b).map(|(x, y)| 2.0 * x - 0.5 * y).collect()
    };
    let (n1, o1) = step(&s1, &v1, &q);
    let (n2, o2) = step(&s2, &v2, &q);
    let (n, o) = step(&mix(&s1, &s2), &mix(&v1, &v2), &q);
    assert_eq!(n, mix(&n1, &n2));
    assert_eq!(o, mix(&o1, &o2));
}

#[test]
fn states_ignore_the_query() {
    let s = [1.0, 2.0, -4.0, 0.5];
    let (n1, o1) = step(&s, &[1.0, -2.0], &[1.0, -2.0]);
    let (n2, o2) = step(&s, &[1.0, -2.0], &[3.0, 0.5]);
    assert_eq!(n1, n2);
    assert_ne!(o1, o2);
}

#[test]
fn a_decoded_token_is_a_step() {
    let km = layer(1, 16, false);
    let s = wave([1, 1, 4, 4], 0.6);
    let x = wave([1, 1, 6], 1.3);
    let (q, k, v, g, beta, _, gate) = km.project_for_test(x.clone());
    let flat = |t: &Tensor<4>| Tensor { dims: [1, 1, 4], bits: t.bits.clone() };
    let alpha = mapped(&Tensor { dims: [1, 4], bits: g.bits.clone() }, f32::exp);
    let strength = f32::from_bits(beta.bits[0]) as f64;
    let (next, out) =
        kda_step(s.clone(), alpha, flat(&q), flat(&k), flat(&v), double(strength));
    let mut state = Some(s);
    let y = km.forward(x, &mut state, true);
    assert_near(&values(&state.unwrap()), &values(&next), 1e-5);
    let out = Tensor { dims: [1, 1, 1, 4], bits: out.bits };
    assert_near(&values(&y), &values(&km.output(&out, &gate)), 1e-4);
}

#[test]
fn later_tokens_and_other_rows_do_not_count() {
    let km = layer(2, 16, false);
    let x1 = wave([2, 5, 6], 0.37);
    let mut x2 = x1.clone();
    for n in 3 * 6..60 {
        x2.bits[n] = (n as f32 * 1.7).cos().to_bits();
    }
    let y1 = km.forward(x1.clone(), &mut None, true);
    let y2 = km.forward(x2.clone(), &mut None, true);
    assert_near(&values(&y1)[..18], &values(&y2)[..18], 1e-6);
    let p1 = km.project(&x1);
    let p2 = km.project(&x2);
    for h in 0..2 {
        for t in 0..3 {
            for c in 0..4 {
                assert_eq!(p1.q.get(0, h, t, c), p2.q.get(0, h, t, c));
                assert_eq!(p1.g.get(0, h, t, c), p2.g.get(0, h, t, c));
                assert_eq!(p1.beta_k.get(0, h, t, c), p2.beta_k.get(0, h, t, c));
            }
        }
    }
}

#[test]
fn projecting_twice_is_projecting_once() {
    let km = layer(2, 16, true);
    let x = wave([2, 5, 6], 0.37);
    let p = km.project(&x);
    let r = km.project_for_test(x);
    for (a, b) in [
        (&p.q, &r.0),
        (&p.k, &r.1),
        (&p.v, &r.2),
        (&p.g, &r.3),
        (&p.beta_k, &r.4),
        (&p.beta_v, &r.5),
        (&p.gate, &r.6),
    ] {
        assert_eq!(a.bits, b.bits);
    }
}

#[test]
fn chunk_sizes_do_not_matter() {
    let x = wave([1, 70, 6], 0.37);
    let mut km = layer(2, 16, false);
    let expected = values(&km.forward_train(x.clone()));
    assert!(expected.iter().all(|v| v.is_finite()));
    for chunk_size in [1, 5, 32, 64, 128] {
        km.chunk_size = chunk_size;
        let got = values(&km.forward_train(x.clone()));
        assert_near(&got, &expected, 5e-3);
    }
}

#[test]
fn training_is_decoding() {
    let x = wave([2, 21, 6], 0.37);
    let mut km = layer(2, 16, true);
    let decoded = values(&km.forward(x.clone(), &mut None, true));
    assert!(decoded.iter().any(|v| v.abs() > 1e-3));
    for chunk_size in [1, 4, 16, 21, 64] {
        km.chunk_size = chunk_size;
        let trained = values(&km.forward_train(x.clone()));
        assert_near(&trained, &decoded, 5e-3);
    }
}
