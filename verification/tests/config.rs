use burn_kda::config::{DecayFn, GateMode, Gdn2Config, KdaConfig, G_MIN};
use burn_kda::float::{F32, F64};
use burn_kda::layer::KdaModule;

fn double(x: f64) -> F64 {
    F64 { bits: x.to_bits() }
}

fn single(x: f32) -> F32 {
    F32 { bits: x.to_bits() }
}

#[test]
fn default_config() {
    let c = KdaConfig::default();
    assert_eq!(c.hidden_size, 128);
    assert_eq!(c.num_heads, 4);
    assert_eq!(c.head_dim, 32);
    assert_eq!(c.num_v_heads, None);
    assert_eq!(c.expand_v, single(1.0));
    assert!(c.use_short_conv);
    assert_eq!(c.rank, 0);
    assert_eq!(c.decay_fn, DecayFn::Sigmoid);
    assert_eq!(c.g_min, double(-5.0));
    assert_eq!(c.g_min.bits, G_MIN);
    assert_eq!(c.gate, GateMode::FullRank);
    assert_eq!(c.chunk_size, 16);
    assert_eq!(c.norm_eps, double(1e-5));
}

#[test]
fn config_of_a_gated_delta_net() {
    let g = Gdn2Config {
        hidden_size: 96,
        num_heads: 3,
        head_dim: 24,
        num_v_heads: Some(6),
        expand_v: single(2.0),
        use_short_conv: false,
        norm_eps: double(1e-6),
        chunk_size: 64,
    };
    let c = KdaConfig::from_gdn2(&g);
    assert_eq!(c.hidden_size, 96);
    assert_eq!(c.num_heads, 3);
    assert_eq!(c.head_dim, 24);
    assert_eq!(c.num_v_heads, Some(6));
    assert_eq!(c.expand_v, single(2.0));
    assert!(!c.use_short_conv);
    assert_eq!(c.rank, 24);
    assert_eq!(c.decay_fn, DecayFn::Sigmoid);
    assert_eq!(c.g_min, double(-5.0));
    assert_eq!(c.gate, GateMode::FullRank);
    assert_eq!(c.chunk_size, 64);
    assert_eq!(c.norm_eps, double(1e-6));
}

#[test]
fn default_layer() {
    let km = KdaModule::new(&KdaConfig::default(), double(0.0));
    assert_eq!(km.q_proj.weight.dims, [128, 128]);
    assert_eq!(km.k_proj.weight.dims, [128, 128]);
    assert_eq!(km.v_proj.weight.dims, [128, 128]);
    assert_eq!(km.q_conv_w.as_ref().unwrap().dims, [128, 4]);
    assert_eq!(km.k_conv_w.as_ref().unwrap().dims, [128, 4]);
    assert_eq!(km.v_conv_w.as_ref().unwrap().dims, [128, 4]);
    assert_eq!(km.decay.w_up.weight.dims, [128, 32]);
    assert_eq!(km.decay.w_down.weight.dims, [32, 128]);
    assert_eq!(km.decay.b_alpha.bits, vec![0; 128]);
    assert_eq!(km.decay.a_log.dims, [4, 1]);
    assert_eq!(km.decay.a_log.bits, vec![0; 4]);
    assert_eq!(km.decay.g_min, double(-5.0));
    assert_eq!(km.beta_proj.weight.dims, [128, 4]);
    assert_eq!(km.o_gate.as_ref().unwrap().weight.dims, [128, 128]);
    assert!(km.o_gate_up.is_none() && km.o_gate_down.is_none());
    assert_eq!(km.o_norm_w.bits, vec![1.0f32.to_bits(); 32]);
    assert_eq!(km.o_proj.weight.dims, [128, 128]);
    assert_eq!((km.d_model, km.n_heads, km.head_dim), (128, 4, 32));
    assert_eq!((km.n_v_heads, km.v_head_dim), (4, 32));
    assert_eq!(km.chunk_size, 16);
}

#[test]
fn grouped_low_rank_layer() {
    let cfg = KdaConfig {
        hidden_size: 10,
        num_heads: 2,
        head_dim: 6,
        num_v_heads: Some(4),
        expand_v: single(1.75),
        use_short_conv: false,
        rank: 3,
        gate: GateMode::LowRank,
        ..Default::default()
    };
    let km = KdaModule::new(&cfg, double(0.0));
    assert_eq!((km.n_v_heads, km.v_head_dim), (4, 10));
    assert_eq!(km.v_proj.weight.dims, [10, 40]);
    assert_eq!(km.decay.w_up.weight.dims, [10, 3]);
    assert_eq!(km.decay.w_down.weight.dims, [3, 12]);
    assert!(km.q_conv_w.is_none() && km.k_conv_w.is_none() && km.v_conv_w.is_none());
    assert!(km.o_gate.is_none());
    assert_eq!(km.o_gate_up.as_ref().unwrap().weight.dims, [10, 6]);
    assert_eq!(km.o_gate_down.as_ref().unwrap().weight.dims, [6, 40]);
    assert_eq!(km.o_norm_w.dims, [10]);
    assert_eq!(km.o_proj.weight.dims, [40, 10]);
}

#[test]
fn fresh_weights_are_drawn() {
    let km = KdaModule::new(&KdaConfig::default(), double(0.0));
    for w in [&km.q_proj.weight, &km.o_proj.weight, km.q_conv_w.as_ref().unwrap()] {
        let vals: Vec<f64> = w.bits.iter().map(|b| f32::from_bits(*b) as f64).collect();
        let n = vals.len() as f64;
        let mean = vals.iter().sum::<f64>() / n;
        let std = (vals.iter().map(|v| (v - mean) * (v - mean)).sum::<f64>() / n).sqrt();
        assert!(mean.abs() < 0.005, "mean {mean}");
        assert!((std - 0.02).abs() < 0.004, "std {std}");
    }
}

#[test]
fn decay_floor() {
    let cfg = KdaConfig { g_min: double(-3.0), ..Default::default() };
    for floor in [0.9f64, 0.5, 1e-3, 2.0] {
        let km = KdaModule::new(&cfg, double(floor));
        let got = f64::from_bits(km.decay.g_min.bits);
        assert!((got - floor.ln()).abs() < 1e-12, "{got} for {floor}");
    }
    for none in [0.0f64, -0.0, -0.9, f64::NEG_INFINITY, f64::NAN] {
        let km = KdaModule::new(&cfg, double(none));
        assert_eq!(km.decay.g_min, double(-3.0));
    }
}
