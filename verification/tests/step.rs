use burn_kda::config::DecayFn;
use burn_kda::decay::KdaDecay;
use burn_kda::float::F64;
use burn_kda::linear::Linear;
use burn_kda::step::kda_step;
use burn_kda::tensor::Tensor;

fn tensor<const D: usize>(dims: [usize; D], vals: &[f32]) -> Tensor<D> {
    assert_eq!(dims.iter().product::<usize>(), vals.len());
    Tensor { dims, bits: vals.iter().map(|v| v.to_bits()).collect() }
}

fn values<const D: usize>(x: &Tensor<D>) -> Vec<f32> {
    x.bits.iter().map(|b| f32::from_bits(*b)).collect()
}

fn double(x: f64) -> F64 {
    F64 { bits: x.to_bits() }
}

/// All numbers are small dyadic fractions, so that the arithmetic is exact.
#[test]
fn one_step_exactly() {
    let state = tensor([1, 1, 2, 3], &[1.0, 2.0, 4.0, -2.0, 0.5, 1.0]);
    let decay = tensor([1, 2], &[0.5, 0.25]);
    let q = tensor([1, 1, 2], &[1.0, -2.0]);
    let k = tensor([1, 1, 2], &[0.5, 1.0]);
    let v = tensor([1, 1, 3], &[1.0, 0.0, -1.0]);
    let (next, out) = kda_step(state, decay, q, k, v, double(0.5));
    // decayed: [0.5, 1, 2], [-0.5, 0.125, 0.25]; recalled: [-0.25, 0.625, 1.25]
    // corrections: [0.625, -0.3125, -1.125]
    assert_eq!(
        values(&next),
        [0.8125, 0.84375, 1.4375, 0.125, -0.1875, -0.875]
    );
    assert_eq!(values(&out), [0.5625, 1.21875, 3.1875]);
}

#[test]
fn full_strength_stores_the_value() {
    let state = tensor([1, 1, 2, 2], &[3.0, -1.0, 2.0, 5.0]);
    let decay = tensor([1, 2], &[1.0, 1.0]);
    let k = tensor([1, 1, 2], &[1.0, 0.0]);
    let v = tensor([1, 1, 2], &[7.0, -4.0]);
    let (next, out) = kda_step(state, decay, k.clone(), k, v, double(1.0));
    assert_eq!(values(&next), [7.0, -4.0, 2.0, 5.0]);
    assert_eq!(values(&out), [7.0, -4.0]);
}

#[test]
fn no_strength_only_decays() {
    let state = tensor([1, 1, 2, 2], &[3.0, -1.0, 2.0, 5.0]);
    let decay = tensor([1, 2], &[0.5, 0.25]);
    let k = tensor([1, 1, 2], &[1.0, 2.0]);
    let v = tensor([1, 1, 2], &[7.0, -4.0]);
    let (next, _) = kda_step(state, decay, k.clone(), k, v, double(0.0));
    assert_eq!(values(&next), [1.5, -0.5, 0.5, 1.25]);
}

/// The matrix `(I - beta k k^T) Diag(alpha) S + beta k v^T`, entry by entry.
#[test]
fn a_step_is_the_matrix_form() {
    let (b, h, dk, dv) = (2, 2, 3, 2);
    let pick = |n: usize| (n * 7 % 11) as f32 / 8.0 - 0.5;
    let fill = |n: usize, from: usize| (0..n).map(|i| pick(i + from)).collect::<Vec<f32>>();
    let s = fill(b * h * dk * dv, 0);
    let a = fill(h * dk, 3);
    let q = fill(b * h * dk, 5);
    let k = fill(b * h * dk, 8);
    let v = fill(b * h * dv, 1);
    let (next, out) = kda_step(
        tensor([b, h, dk, dv], &s),
        tensor([h, dk], &a),
        tensor([b, h, dk], &q),
        tensor([b, h, dk], &k),
        tensor([b, h, dv], &v),
        double(0.75),
    );
    for bh in 0..b * h {
        for j in 0..dv {
            let mut o = 0.0f64;
            for i in 0..dk {
                let at = |x: &[f32], n: usize, c: usize| x[bh * n + c] as f64;
                let mut e = 0.75 * at(&k, dk, i) * at(&v, dv, j);
                for m in 0..dk {
                    let unit = if i == m { 1.0 } else { 0.0 };
                    let decayed = a[bh % h * dk + m] as f64 * s[(bh * dk + m) * dv + j] as f64;
                    e += (unit - 0.75 * at(&k, dk, i) * at(&k, dk, m)) * decayed;
                }
                let got = values(&next)[(bh * dk + i) * dv + j] as f64;
                assert!((got - e).abs() < 1e-5);
                o += e * at(&q, dk, i);
            }
            assert!((values(&out)[bh * dv + j] as f64 - o).abs() < 1e-5);
        }
    }
}

#[test]
fn a_step_without_batches() {
    let (next, out) = kda_step(
        tensor([0, 2, 3, 4], &[]),
        tensor([2, 3], &[1.0; 6]),
        tensor([0, 2, 3], &[]),
        tensor([0, 2, 3], &[]),
        tensor([0, 2, 4], &[]),
        double(0.5),
    );
    assert_eq!(next.dims, [0, 2, 3, 4]);
    assert_eq!(out.dims, [0, 2, 4]);
}

#[test]
fn a_step_without_heads() {
    let (next, out) = kda_step(
        tensor([2, 0, 3, 4], &[]),
        tensor([0, 3], &[]),
        tensor([2, 0, 3], &[]),
        tensor([2, 0, 3], &[]),
        tensor([2, 0, 4], &[]),
        double(0.5),
    );
    assert_eq!(next.dims, [2, 0, 3, 4]);
    assert_eq!(out.dims, [2, 0, 4]);
}

fn decay(decay_fn: DecayFn) -> KdaDecay {
    KdaDecay {
        w_up: Linear { weight: tensor([2, 1], &[1.0, -0.5]) },
        w_down: Linear { weight: tensor([1, 4], &[1.0, 2.0, -1.0, 0.5]) },
        b_alpha: tensor([4], &[0.0, 0.25, -0.5, 1.0]),
        a_log: tensor([2, 1], &[0.5, -1.0]),
        g_min: double(-5.0),
        decay_fn,
    }
}

#[test]
fn decay_of_both_mappings() {
    let x = tensor([1, 2, 2], &[1.0, 2.0, 3.0, 1.0]);
    let up = [0.0f64, 2.5];
    let down = [1.0f64, 2.0, -1.0, 0.5];
    let bias = [0.0f64, 0.25, -0.5, 1.0];
    let scale = [0.5f64.exp(), (-1.0f64).exp()];
    let linear = values(&decay(DecayFn::Softplus).forward(x.clone()));
    let bounded = values(&decay(DecayFn::Sigmoid).forward(x));
    for t in 0..2 {
        for n in 0..4 {
            let z = up[t] * down[n] + bias[n];
            let a = scale[n / 2];
            let unbounded_g = -a * (1.0 + z.exp()).ln();
            let bounded_g = -5.0 / (1.0 + (-a * z).exp());
            assert!((linear[t * 4 + n] as f64 - unbounded_g.exp()).abs() < 1e-6);
            assert!((bounded[t * 4 + n] as f64 - bounded_g.exp()).abs() < 1e-6);
        }
    }
}

#[test]
fn linear_map_exactly() {
    let map = Linear { weight: tensor([3, 2], &[1.0, 2.0, 0.5, -1.0, 4.0, 0.25]) };
    let y = map.forward(&tensor([1, 2, 3], &[1.0, 2.0, 3.0, -1.0, 0.0, 0.5]));
    assert_eq!(y.dims, [1, 2, 2]);
    assert_eq!(values(&y), [14.0, 0.75, 1.0, -1.875]);
}

#[test]
fn elements_are_row_major() {
    let x = tensor([2, 1, 2, 2], &[1.0, 2.0, 3.0, 4.0, 5.0, 6.0, 7.0, 8.0]);
    assert_eq!(f32::from_bits(x.get(0, 0, 1, 0)), 3.0);
    assert_eq!(f32::from_bits(x.get(1, 0, 1, 1)), 8.0);
    let y = tensor([2, 3], &[1.0, 2.0, 3.0, 4.0, 5.0, 6.0]);
    assert_eq!(f32::from_bits(y.get(1, 0)), 4.0);
    let z = tensor([2, 2, 2], &[1.0, 2.0, 3.0, 4.0, 5.0, 6.0, 7.0, 8.0]);
    assert_eq!(f32::from_bits(z.get(1, 0, 1)), 6.0);
    assert_eq!(f32::from_bits(tensor([2], &[1.0, 2.0]).get(1)), 2.0);
}
