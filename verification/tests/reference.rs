use burn_kda::config::{DecayFn, GateMode, KdaConfig};
use burn_kda::float::{F32, F64};
use burn_kda::layer::KdaModule;
use burn_kda::tensor::Tensor;

/// Deterministic numbers in `(-scale, scale)`.
struct Source {
    seed: u64,
}

impl Source {
    fn next(&mut self, scale: f32) -> f32 {
        self.seed = self.seed.wrapping_mul(6364136223846793005).wrapping_add(1442695040888963407);
        let unit = (self.seed >> 40) as f32 / (1u64 << 24) as f32;
        (2.0 * unit - 1.0) * scale
    }

    fn fill<const D: usize>(&mut self, t: &mut Tensor<D>, scale: f32) {
        for b in t.bits.iter_mut() {
            *b = self.next(scale).to_bits();
        }
    }

    fn tensor<const D: usize>(&mut self, dims: [usize; D], scale: f32) -> Tensor<D> {
        let mut t = Tensor { dims, bits: vec![0; dims.iter().product()] };
        self.fill(&mut t, scale);
        t
    }
}

fn value(bits: u32) -> f64 {
    f32::from_bits(bits) as f64
}

fn sigmoid(x: f64) -> f64 {
    1.0 / (1.0 + (-x).exp())
}

fn silu(x: f64) -> f64 {
    x * sigmoid(x)
}

/// Gives a layer's parameters values that are large enough to tell mistakes apart.
fn set(km: &mut KdaModule, s: &mut Source) {
    s.fill(&mut km.q_proj.weight, 0.6);
    s.fill(&mut km.k_proj.weight, 0.6);
    s.fill(&mut km.v_proj.weight, 0.6);
    s.fill(&mut km.beta_proj.weight, 0.9);
    s.fill(&mut km.o_proj.weight, 0.6);
    s.fill(&mut km.decay.w_up.weight, 0.7);
    s.fill(&mut km.decay.w_down.weight, 0.7);
    s.fill(&mut km.decay.b_alpha, 0.8);
    s.fill(&mut km.decay.a_log, 0.8);
    s.fill(&mut km.o_norm_w, 1.5);
    for w in [&mut km.q_conv_w, &mut km.k_conv_w, &mut km.v_conv_w] {
        if let Some(w) = w {
            s.fill(w, 0.8);
        }
    }
    for w in [&mut km.o_gate, &mut km.o_gate_up, &mut km.o_gate_down] {
        if let Some(w) = w {
            s.fill(&mut w.weight, 0.8);
        }
    }
}

/// `x W`, per token of one batch.
fn mapped(x: &[Vec<f64>], w: &Tensor<2>) -> Vec<Vec<f64>> {
    let cols = w.dims[1];
    x.iter()
        .map(|row| {
            (0..cols)
                .map(|c| (0..w.dims[0]).map(|r| row[r] * value(w.bits[r * cols + c])).sum())
                .collect()
        })
        .collect()
}

/// A short convolution with SiLU, or SiLU alone.
fn activated(x: &[Vec<f64>], conv: &Option<Tensor<2>>) -> Vec<Vec<f64>> {
    (0..x.len())
        .map(|t| {
            (0..x[t].len())
                .map(|c| match conv {
                    Some(w) => {
                        let taps = (0..4).map(|n| {
                            let at = (t + n).saturating_sub(3);
                            x[at][c] * value(w.bits[c * 4 + n])
                        });
                        silu(taps.sum())
                    }
                    None => silu(x[t][c]),
                })
                .collect()
        })
        .collect()
}

fn normalized(x: &[Vec<f64>]) -> Vec<Vec<f64>> {
    x.iter()
        .map(|row| {
            let norm = row.iter().map(|v| v * v).sum::<f64>().sqrt();
            row.iter().map(|v| v / norm).collect()
        })
        .collect()
}

/// What the recurrence is given, per token and head.
struct Inputs {
    q: Vec<Vec<Vec<f64>>>,
    k: Vec<Vec<Vec<f64>>>,
    v: Vec<Vec<Vec<f64>>>,
    alpha: Vec<Vec<Vec<f64>>>,
    beta: Vec<Vec<f64>>,
    gate: Vec<Vec<Vec<f64>>>,
}

fn inputs(km: &KdaModule, x: &[Vec<f64>]) -> Inputs {
    let (h, hk, hv, vd) = (km.n_heads, km.head_dim, km.n_v_heads, km.v_head_dim);
    let rep = if hv > h { hv / h } else { 1 };
    let keyed = |rows: Vec<Vec<f64>>| -> Vec<Vec<Vec<f64>>> {
        rows.iter()
            .map(|r| (0..h * rep).map(|j| r[j / rep * hk..(j / rep + 1) * hk].to_vec()).collect())
            .collect()
    };
    let valued = |rows: Vec<Vec<f64>>| -> Vec<Vec<Vec<f64>>> {
        rows.iter()
            .map(|r| (0..hv).map(|j| r[j * vd..(j + 1) * vd].to_vec()).collect())
            .collect()
    };
    let q = normalized(&activated(&mapped(x, &km.q_proj.weight), &km.q_conv_w));
    let k = normalized(&activated(&mapped(x, &km.k_proj.weight), &km.k_conv_w));
    let v = activated(&mapped(x, &km.v_proj.weight), &km.v_conv_w);
    let z = mapped(&mapped(x, &km.decay.w_up.weight), &km.decay.w_down.weight);
    let g_min = f64::from_bits(km.decay.g_min.bits);
    let alpha = z
        .iter()
        .map(|row| {
            (0..h * hk)
                .map(|n| {
                    let z = row[n] + value(km.decay.b_alpha.bits[n]);
                    let scale = value(km.decay.a_log.bits[n / hk]).exp();
                    match km.decay.decay_fn {
                        DecayFn::Softplus => (-scale * (1.0 + z.exp()).ln()).exp(),
                        DecayFn::Sigmoid => (g_min * sigmoid(scale * z)).exp(),
                    }
                })
                .collect()
        })
        .collect();
    let beta = mapped(x, &km.beta_proj.weight)
        .iter()
        .map(|r| (0..h * rep).map(|j| sigmoid(r[j / rep])).collect())
        .collect();
    let logit = match km.gate {
        GateMode::FullRank => mapped(x, &km.o_gate.as_ref().unwrap().weight),
        GateMode::LowRank => mapped(
            &mapped(x, &km.o_gate_up.as_ref().unwrap().weight),
            &km.o_gate_down.as_ref().unwrap().weight,
        ),
    };
    let gate = logit.iter().map(|r| r.iter().map(|v| sigmoid(*v)).collect()).collect();
    Inputs {
        q: keyed(q),
        k: keyed(k),
        v: valued(v),
        alpha: keyed(alpha),
        beta,
        gate: valued(gate),
    }
}

/// Norm, gate and output map of the heads' outputs of one token.
fn finished(km: &KdaModule, o: &[Vec<f64>], gate: &[Vec<f64>]) -> Vec<f64> {
    let vd = km.v_head_dim;
    let eps = f64::from_bits(km.norm_eps.bits);
    let mut merged = Vec::new();
    for (o, gate) in o.iter().zip(gate) {
        let mean = o.iter().map(|v| v * v).sum::<f64>() / vd as f64;
        for c in 0..vd {
            let normed = o[c] / (mean + eps).sqrt();
            merged.push(normed * gate[c] * value(km.o_norm_w.bits[c]));
        }
    }
    mapped(&[merged], &km.o_proj.weight).remove(0)
}

/// The states of all heads.
type State = Vec<Vec<Vec<f64>>>;

fn no_state(km: &KdaModule) -> State {
    vec![vec![vec![0.0; km.v_head_dim]; km.head_dim]; km.n_v_heads]
}

/// The recurrence with the matrix `(I - beta k k^T) Diag(alpha)` written out.
fn decoded(km: &KdaModule, x: &[Vec<f64>], s: &mut State) -> Vec<Vec<f64>> {
    let p = inputs(km, x);
    (0..x.len())
        .map(|t| {
            let mut o = Vec::new();
            for h in 0..km.n_v_heads {
                let (k, a, b) = (&p.k[t][h], &p.alpha[t][h], p.beta[t][h]);
                let old = s[h].clone();
                for i in 0..km.head_dim {
                    for j in 0..km.v_head_dim {
                        let mut sum = b * k[i] * p.v[t][h][j];
                        for m in 0..km.head_dim {
                            let unit = if i == m { 1.0 } else { 0.0 };
                            sum += (unit - b * k[i] * k[m]) * a[m] * old[m][j];
                        }
                        s[h][i][j] = sum;
                    }
                }
                o.push(
                    (0..km.v_head_dim)
                        .map(|j| (0..km.head_dim).map(|i| s[h][i][j] * p.q[t][h][i]).sum())
                        .collect::<Vec<f64>>(),
                );
            }
            finished(km, &o, &p.gate[t])
        })
        .collect()
}

/// The queries read a state that stays as it is.
fn prefilled(km: &KdaModule, x: &[Vec<f64>], s: &State) -> Vec<Vec<f64>> {
    let p = inputs(km, x);
    (0..x.len())
        .map(|t| {
            let o: Vec<Vec<f64>> = (0..km.n_v_heads)
                .map(|h| {
                    (0..km.v_head_dim)
                        .map(|j| (0..km.head_dim).map(|i| s[h][i][j] * p.q[t][h][i]).sum())
                        .collect()
                })
                .collect();
            finished(km, &o, &p.gate[t])
        })
        .collect()
}

/// The tokens of one batch.
fn tokens(x: &Tensor<3>, b: usize) -> Vec<Vec<f64>> {
    let [_, t, d] = x.dims;
    (0..t).map(|i| (0..d).map(|c| value(x.bits[(b * t + i) * d + c])).collect()).collect()
}

fn assert_close(y: &Tensor<3>, b: usize, expected: &[Vec<f64>], tolerance: f64) {
    let got = tokens(y, b);
    assert_eq!(got.len(), expected.len());
    for (g, e) in got.iter().flatten().zip(expected.iter().flatten()) {
        assert!((g - e).abs() < tolerance, "{g} is not {e}");
    }
}

fn layer(cfg: KdaConfig, seed: u64) -> KdaModule {
    let mut km = KdaModule::new(&cfg, F64 { bits: 0 });
    set(&mut km, &mut Source { seed });
    km
}

fn small() -> KdaConfig {
    KdaConfig {
        hidden_size: 6,
        num_heads: 2,
        head_dim: 4,
        use_short_conv: false,
        ..Default::default()
    }
}

/// Both passes of a layer against the reference, on two batches.
fn check(cfg: KdaConfig, seed: u64, t: usize) {
    let km = layer(cfg, seed);
    let x = Source { seed: seed + 7 }.tensor([2, t, cfg.hidden_size], 1.5);
    let mut state = None;
    let y = km.forward(x.clone(), &mut state, true);
    let trained = km.forward_train(x.clone());
    assert_eq!(y.dims, [2, t, cfg.hidden_size]);
    assert_eq!(trained.dims, [2, t, cfg.hidden_size]);
    let state = state.unwrap();
    assert_eq!(state.dims, [2, km.n_v_heads, km.head_dim, km.v_head_dim]);
    for b in 0..2 {
        let mut s = no_state(&km);
        let expected = decoded(&km, &tokens(&x, b), &mut s);
        assert_close(&y, b, &expected, 2e-4);
        assert_close(&trained, b, &expected, 2e-3);
        for h in 0..km.n_v_heads {
            for i in 0..km.head_dim {
                for j in 0..km.v_head_dim {
                    let got = value(state.get(b, h, i, j));
                    assert!((got - s[h][i][j]).abs() < 1e-4);
                }
            }
        }
    }
}

#[test]
fn bounded_decay_layer() {
    check(small(), 1, 5);
}

#[test]
fn unbounded_decay_layer() {
    check(KdaConfig { decay_fn: DecayFn::Softplus, ..small() }, 2, 5);
}

#[test]
fn short_conv_layer() {
    check(KdaConfig { use_short_conv: true, ..small() }, 3, 6);
}

#[test]
fn low_rank_gate_layer() {
    check(KdaConfig { gate: GateMode::LowRank, ..small() }, 4, 5);
}

#[test]
fn grouped_values_layer() {
    check(KdaConfig { num_v_heads: Some(6), ..small() }, 5, 5);
}

#[test]
fn expanded_values_layer() {
    check(KdaConfig { expand_v: F32 { bits: 1.5f32.to_bits() }, ..small() }, 6, 5);
}

#[test]
fn grouped_and_expanded_with_conv() {
    let cfg = KdaConfig {
        num_v_heads: Some(4),
        expand_v: F32 { bits: 0.5f32.to_bits() },
        use_short_conv: true,
        gate: GateMode::LowRank,
        decay_fn: DecayFn::Softplus,
        rank: 3,
        ..small()
    };
    check(cfg, 7, 4);
}

#[test]
fn single_token() {
    check(small(), 8, 1);
}

#[test]
fn chunks_of_three() {
    check(KdaConfig { chunk_size: 3, ..small() }, 9, 10);
}

#[test]
fn chunks_of_sixty_four() {
    check(KdaConfig { chunk_size: 64, ..small() }, 10, 80);
}

#[test]
fn chunks_longer_than_the_sequence() {
    check(KdaConfig { chunk_size: 100, ..small() }, 11, 7);
}

#[test]
fn read_only_pass_leaves_the_state() {
    let km = layer(small(), 12);
    let mut source = Source { seed: 13 };
    let warmup = source.tensor([2, 4, 6], 1.5);
    let x = source.tensor([2, 3, 6], 1.5);
    let mut state = None;
    km.forward(warmup.clone(), &mut state, true);
    let before = state.clone().unwrap();
    let y = km.forward(x.clone(), &mut state, false);
    let after = state.unwrap();
    assert_eq!(after.dims, before.dims);
    assert_eq!(after.bits, before.bits);
    for b in 0..2 {
        let mut s = no_state(&km);
        decoded(&km, &tokens(&warmup, b), &mut s);
        assert_close(&y, b, &prefilled(&km, &tokens(&x, b), &s), 2e-4);
    }
}

#[test]
fn read_only_pass_without_a_state_reads_zeros() {
    let km = layer(small(), 14);
    let x = Source { seed: 15 }.tensor([1, 3, 6], 1.5);
    let mut state = None;
    let y = km.forward(x, &mut state, false);
    assert!(y.bits.iter().all(|b| f32::from_bits(*b) == 0.0));
    let state = state.unwrap();
    assert_eq!(state.dims, [1, 2, 4, 4]);
    assert!(state.bits.iter().all(|b| *b == 0));
}

#[test]
fn decoding_in_pieces() {
    let km = layer(small(), 16);
    let x = Source { seed: 17 }.tensor([1, 7, 6], 1.5);
    let mut whole = None;
    let y = km.forward(x.clone(), &mut whole, true);
    let mut state = None;
    let mut pieces = Vec::new();
    for t in 0..7 {
        let part = Tensor { dims: [1, 1, 6], bits: x.bits[t * 6..(t + 1) * 6].to_vec() };
        pieces.extend(km.forward(part, &mut state, true).bits);
    }
    for (a, b) in y.bits.iter().zip(&pieces) {
        assert!((value(*a) - value(*b)).abs() < 1e-5);
    }
    for (a, b) in whole.unwrap().bits.iter().zip(&state.unwrap().bits) {
        assert!((value(*a) - value(*b)).abs() < 1e-5);
    }
}

#[test]
fn given_zeros_are_no_state() {
    let km = layer(small(), 18);
    let x = Source { seed: 19 }.tensor([1, 3, 6], 1.5);
    let mut none = None;
    let mut zeros = Some(Tensor { dims: [1, 2, 4, 4], bits: vec![0; 32] });
    let a = km.forward(x.clone(), &mut none, true);
    let b = km.forward(x, &mut zeros, true);
    assert_eq!(a.bits, b.bits);
    assert_eq!(none.unwrap().bits, zeros.unwrap().bits);
}

#[test]
fn projection_of_a_grouped_layer() {
    let km = layer(KdaConfig { num_v_heads: Some(4), ..small() }, 20);
    let x = Source { seed: 21 }.tensor([1, 3, 6], 1.5);
    let p = inputs(&km, &tokens(&x, 0));
    let (q, k, v, g, beta_k, beta_v, gate) = km.project_for_test(x);
    assert_eq!(q.dims, [1, 4, 3, 4]);
    assert_eq!(gate.dims, [1, 4, 3, 4]);
    for h in 0..4 {
        for t in 0..3 {
            for c in 0..4 {
                let near = |x: &Tensor<4>, y: f64| (value(x.get(0, h, t, c)) - y).abs() < 1e-5;
                assert!(near(&q, p.q[t][h][c]));
                assert!(near(&k, p.k[t][h][c]));
                assert!(near(&v, p.v[t][h][c]));
                assert!(near(&g, p.alpha[t][h][c].ln()));
                assert!(near(&beta_k, p.beta[t][h]));
                assert!(near(&beta_v, p.beta[t][h]));
                assert!(near(&gate, p.gate[t][h][c]));
                assert_eq!(beta_k.get(0, h, t, c), beta_v.get(0, h, t, 0));
                assert_eq!(q.get(0, h, t, c), q.get(0, h / 2 * 2, t, c));
                assert_eq!(k.get(0, h, t, c), k.get(0, h / 2 * 2, t, c));
                assert_eq!(g.get(0, h, t, c), g.get(0, h / 2 * 2, t, c));
            }
        }
    }
}

#[test]
fn fewer_value_heads_still_project() {
    let km = layer(KdaConfig { num_v_heads: Some(1), ..small() }, 22);
    let x = Source { seed: 23 }.tensor([1, 3, 6], 1.5);
    let (q, k, v, g, beta_k, beta_v, gate) = km.project_for_test(x);
    assert_eq!(q.dims, [1, 2, 3, 4]);
    assert_eq!(k.dims, [1, 2, 3, 4]);
    assert_eq!(v.dims, [1, 1, 3, 4]);
    assert_eq!(g.dims, [1, 2, 3, 4]);
    assert_eq!(beta_k.dims, [1, 2, 3, 4]);
    assert_eq!(beta_v.dims, [1, 2, 3, 4]);
    assert_eq!(gate.dims, [1, 1, 3, 4]);
}

#[test]
fn no_batches() {
    let km = layer(KdaConfig { use_short_conv: true, ..small() }, 24);
    let x = Tensor { dims: [0, 3, 6], bits: Vec::new() };
    let mut state = None;
    let y = km.forward(x.clone(), &mut state, true);
    assert_eq!(y.dims, [0, 3, 6]);
    assert_eq!(state.as_ref().unwrap().dims, [0, 2, 4, 4]);
    assert_eq!(km.forward(x.clone(), &mut state, false).dims, [0, 3, 6]);
    assert_eq!(km.forward_train(x).dims, [0, 3, 6]);
}
